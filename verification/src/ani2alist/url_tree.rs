//! The text format of an AList `UrlTree` storage: nested directories and
//! files, one per line, indented by two spaces per level. A directory line is
//! `name:`; a file line is `name:size:modified:url`.
use vstd::prelude::*;
use crate::alist2strm::config::string_views;
use crate::alist2strm::path::last_segment;
use crate::text::{
    is_digit, is_ws, lacks, occurs_at, starts_with,
    chars_eq, chars_of, contains, contains_chars, ends_with, find, find_char, find_char_exec, find_first,
    int_str, i64_str, nat_str, parse_i64, parse_i64_exec, parse_u64, parse_u64_exec, push_all,
    repeat, repeat_chars, rfind_char_exec, slice_chars, split_char, split_char_exec, string_of,
    trim, trim_chars, trim_end, trim_end_char, trim_end_char_exec, trim_end_index, u64_str, views,
};

verus! {

/// A whole tree.
#[derive(Debug)]
pub struct Tree {
    children: Vec<Node>,
}

/// A directory with its children, or a file.
#[derive(Debug)]
pub enum Node {
    Directory { name: String, children: Vec<Node> },
    File(FileEntry),
}

/// A file line: `name:size:modified:url`.
#[derive(Clone, Debug, PartialEq, Eq)]
pub struct FileEntry {
    pub name: String,
    pub size: u64,
    pub modified: i64,
    pub url: String,
}

// ---------------------------------------------------------------------------
// Model.
// ---------------------------------------------------------------------------

/// The mathematical value of a node.
pub ghost enum Item {
    Dir { name: Seq<char>, children: Seq<Item> },
    File { name: Seq<char>, size: u64, modified: i64, url: Seq<char> },
}

pub open spec fn file_item(f: FileEntry) -> Item {
    Item::File { name: f.name@, size: f.size, modified: f.modified, url: f.url@ }
}

pub open spec fn node_view(n: Node) -> Item
    decreases n,
{
    match n {
        Node::Directory { name, children } => Item::Dir { name: name@, children: nodes_view(children@) },
        Node::File(f) => file_item(f),
    }
}

pub open spec fn nodes_view(ns: Seq<Node>) -> Seq<Item>
    decreases ns,
{
    if ns.len() == 0 {
        seq![]
    } else {
        nodes_view(ns.drop_last()).push(node_view(ns.last()))
    }
}

impl View for Tree {
    type V = Seq<Item>;

    closed spec fn view(&self) -> Seq<Item> {
        nodes_view(self.children@)
    }
}

pub proof fn lemma_nodes_view(ns: Seq<Node>)
    ensures
        nodes_view(ns).len() == ns.len(),
        forall|i: int| 0 <= i < ns.len() ==> #[trigger] nodes_view(ns)[i] == node_view(ns[i]),
    decreases ns.len(),
{
    if ns.len() > 0 {
        lemma_nodes_view(ns.drop_last());
        assert forall|i: int| 0 <= i < ns.len() implies #[trigger] nodes_view(ns)[i] == node_view(ns[i]) by {
            if i < ns.len() - 1 {
                assert(ns.drop_last()[i] == ns[i]);
            }
        }
    }
}

pub proof fn lemma_nodes_view_update(ns: Seq<Node>, i: int, n: Node)
    requires
        0 <= i < ns.len(),
    ensures
        nodes_view(ns.update(i, n)) == nodes_view(ns).update(i, node_view(n)),
{
    lemma_nodes_view(ns);
    lemma_nodes_view(ns.update(i, n));
    assert(nodes_view(ns.update(i, n)) =~= nodes_view(ns).update(i, node_view(n)));
}

// ---------------------------------------------------------------------------
// Writing the text.
// ---------------------------------------------------------------------------

/// `n` spaces.
pub open spec fn spaces(n: nat) -> Seq<char> {
    repeat(seq![' '], n)
}

/// The text of a file line, without its line end.
pub open spec fn file_line(name: Seq<char>, size: u64, modified: i64, url: Seq<char>) -> Seq<char> {
    name + seq![':'] + nat_str(size as nat) + seq![':'] + int_str(modified as int) + seq![':'] + url
}

/// The text of the items at the given indentation, each line ended by `\n`,
/// children two spaces deeper than their directory.
pub open spec fn items_str(items: Seq<Item>, indent: nat) -> Seq<char>
    decreases items,
{
    if items.len() == 0 {
        seq![]
    } else {
        items_str(items.drop_last(), indent) + item_str(items.last(), indent)
    }
}

pub open spec fn item_str(it: Item, indent: nat) -> Seq<char>
    decreases it,
{
    match it {
        Item::Dir { name, children } => spaces(indent) + name + seq![':', '\n'] + items_str(children, indent + 2),
        Item::File { name, size, modified, url } => spaces(indent) + file_line(name, size, modified, url)
            + seq!['\n'],
    }
}

/// The text of the nodes at the given indentation.
pub fn stringify_nodes(nodes: &Vec<Node>, indent: usize) -> (res: Vec<char>)
    requires
        indent + 2 * nodes_depth(nodes@) <= usize::MAX,
    ensures
        res@ == items_str(nodes_view(nodes@), indent as nat),
    decreases nodes@,
{
    let mut out: Vec<char> = Vec::new();
    let mut i: usize = 0;
    proof {
        lemma_nodes_view(nodes@);
    }
    assert(nodes_view(nodes@).take(0) =~= Seq::<Item>::empty());
    while i < nodes.len()
        invariant
            i <= nodes.len(),
            indent + 2 * nodes_depth(nodes@) <= usize::MAX,
            nodes_view(nodes@).len() == nodes@.len(),
            forall|j: int| 0 <= j < nodes@.len() ==> #[trigger] nodes_view(nodes@)[j] == node_view(nodes@[j]),
            out@ == items_str(nodes_view(nodes@).take(i as int), indent as nat),
        decreases nodes.len() - i,
    {
        assert(nodes_view(nodes@).take(i + 1).drop_last() =~= nodes_view(nodes@).take(i as int));
        assert(nodes_view(nodes@).take(i + 1).last() == node_view(nodes@[i as int]));
        let sp = vec![' '];
        assert(sp@ =~= seq![' ']);
        let pad = repeat_chars(&sp, indent);
        proof {
            lemma_depth_elem(nodes@, i as int);
        }
        let ghost old_out = out@;
        let ghost it = node_view(nodes@[i as int]);
        match &nodes[i] {
            Node::Directory { name, children } => {
                push_all(&mut out, &pad);
                let n = chars_of(name.as_str());
                push_all(&mut out, &n);
                out.push(':');
                out.push('\n');
                assert(decreases_to!(nodes@ => nodes@[i as int]));
                let sub = stringify_nodes(children, indent + 2);
                push_all(&mut out, &sub);
                assert(out@ =~= old_out + item_str(it, indent as nat));
            },
            Node::File(file) => {
                push_all(&mut out, &pad);
                let n = chars_of(file.name.as_str());
                push_all(&mut out, &n);
                out.push(':');
                let s = u64_str(file.size);
                push_all(&mut out, &s);
                out.push(':');
                let m = i64_str(file.modified);
                push_all(&mut out, &m);
                out.push(':');
                let u = chars_of(file.url.as_str());
                push_all(&mut out, &u);
                out.push('\n');
                assert(out@ =~= old_out + item_str(it, indent as nat));
            },
        }
        i = i + 1;
    }
    assert(nodes_view(nodes@).take(nodes.len() as int) =~= nodes_view(nodes@));
    out
}

/// How deeply directories nest below these nodes.
pub open spec fn nodes_depth(ns: Seq<Node>) -> nat
    decreases ns,
{
    if ns.len() == 0 {
        0
    } else {
        let d = nodes_depth(ns.drop_last());
        let e = node_depth(ns.last());
        if d >= e { d } else { e }
    }
}

pub open spec fn node_depth(n: Node) -> nat
    decreases n,
{
    match n {
        Node::Directory { children, .. } => 1 + nodes_depth(children@),
        Node::File(_) => 0,
    }
}

pub proof fn lemma_depth_elem(ns: Seq<Node>, i: int)
    requires
        0 <= i < ns.len(),
    ensures
        node_depth(ns[i]) <= nodes_depth(ns),
    decreases ns.len(),
{
    if i < ns.len() - 1 {
        lemma_depth_elem(ns.drop_last(), i);
        assert(ns.drop_last()[i] == ns[i]);
    }
}

/// Whether directories nest at most `limit` deep below these nodes.
pub fn depth_at_most(nodes: &Vec<Node>, limit: usize) -> (res: bool)
    ensures
        res == (nodes_depth(nodes@) <= limit),
    decreases nodes@,
{
    let mut i: usize = 0;
    proof {
        lemma_depth_prefix(nodes@, 0);
    }
    while i < nodes.len()
        invariant
            i <= nodes.len(),
            nodes_depth(nodes@.take(i as int)) <= limit,
        decreases nodes.len() - i,
    {
        assert(nodes@.take(i + 1).drop_last() =~= nodes@.take(i as int));
        assert(nodes@.take(i + 1).last() == nodes@[i as int]);
        match &nodes[i] {
            Node::Directory { children, .. } => {
                if limit == 0 {
                    proof {
                        lemma_depth_elem(nodes@, i as int);
                    }
                    return false;
                }
                assert(decreases_to!(nodes@ => nodes@[i as int]));
                if !depth_at_most(children, limit - 1) {
                    proof {
                        lemma_depth_elem(nodes@, i as int);
                    }
                    return false;
                }
                assert(node_depth(nodes@[i as int]) == 1 + nodes_depth(children@));
            },
            Node::File(_) => {
                assert(node_depth(nodes@[i as int]) == 0);
            },
        }
        assert(nodes_depth(nodes@.take(i + 1)) <= limit);
        i = i + 1;
    }
    assert(nodes@.take(nodes.len() as int) =~= nodes@);
    true
}

proof fn lemma_depth_prefix(ns: Seq<Node>, i: int)
    requires
        i == 0,
    ensures
        nodes_depth(ns.take(i)) == 0,
{
    assert(ns.take(i).len() == 0);
}

// ---------------------------------------------------------------------------
// Inserting or replacing files.
// ---------------------------------------------------------------------------

pub open spec fn is_file_named(it: Item, name: Seq<char>) -> bool {
    match it {
        Item::File { name: n, .. } => n == name,
        Item::Dir { .. } => false,
    }
}

pub open spec fn is_dir_named(it: Item, name: Seq<char>) -> bool {
    match it {
        Item::Dir { name: n, .. } => n == name,
        Item::File { .. } => false,
    }
}

/// The first index at or after `i` of a file called `name`.
pub open spec fn file_index_from(items: Seq<Item>, name: Seq<char>, i: int) -> Option<int>
    decreases items.len() - i,
{
    if i < 0 || i >= items.len() {
        None
    } else if is_file_named(items[i], name) {
        Some(i)
    } else {
        file_index_from(items, name, i + 1)
    }
}

/// The first index at or after `i` of a directory called `name`.
pub open spec fn dir_index_from(items: Seq<Item>, name: Seq<char>, i: int) -> Option<int>
    decreases items.len() - i,
{
    if i < 0 || i >= items.len() {
        None
    } else if is_dir_named(items[i], name) {
        Some(i)
    } else {
        dir_index_from(items, name, i + 1)
    }
}

pub open spec fn item_name(it: Item) -> Seq<char> {
    match it {
        Item::Dir { name, .. } => name,
        Item::File { name, .. } => name,
    }
}

/// The items with the first file of the same name replaced by `f`, or `f`
/// added at the end when there is none.
pub open spec fn upsert_file_items(items: Seq<Item>, f: Item) -> Seq<Item> {
    match file_index_from(items, item_name(f), 0) {
        Some(i) => items.update(i, f),
        None => items.push(f),
    }
}

pub open spec fn dir_children(it: Item) -> Seq<Item> {
    match it {
        Item::Dir { children, .. } => children,
        Item::File { .. } => seq![],
    }
}

/// The items with `f` placed below the directories `path`: each directory
/// is the first of that name, created at the end when there is none.
pub open spec fn upsert_path_items(items: Seq<Item>, path: Seq<Seq<char>>, f: Item) -> Seq<Item>
    decreases path.len(),
{
    if path.len() == 0 {
        upsert_file_items(items, f)
    } else {
        match dir_index_from(items, path[0], 0) {
            Some(i) => items.update(
                i,
                Item::Dir { name: path[0], children: upsert_path_items(dir_children(items[i]), path.drop_first(), f) },
            ),
            None => items.push(Item::Dir { name: path[0], children: upsert_path_items(seq![], path.drop_first(), f) }),
        }
    }
}

pub proof fn lemma_file_index_from(items: Seq<Item>, name: Seq<char>, i: int)
    requires
        0 <= i,
    ensures
        match file_index_from(items, name, i) {
            Some(k) => i <= k < items.len() && is_file_named(items[k], name) && forall|j: int|
                i <= j < k ==> !is_file_named(#[trigger] items[j], name),
            None => forall|j: int| i <= j < items.len() ==> !is_file_named(#[trigger] items[j], name),
        },
    decreases items.len() - i,
{
    if i < items.len() && !is_file_named(items[i], name) {
        lemma_file_index_from(items, name, i + 1);
    }
}

pub proof fn lemma_dir_index_from(items: Seq<Item>, name: Seq<char>, i: int)
    requires
        0 <= i,
    ensures
        match dir_index_from(items, name, i) {
            Some(k) => i <= k < items.len() && is_dir_named(items[k], name) && forall|j: int|
                i <= j < k ==> !is_dir_named(#[trigger] items[j], name),
            None => forall|j: int| i <= j < items.len() ==> !is_dir_named(#[trigger] items[j], name),
        },
    decreases items.len() - i,
{
    if i < items.len() && !is_dir_named(items[i], name) {
        lemma_dir_index_from(items, name, i + 1);
    }
}

/// The first index of a file called `name`.
fn file_position(nodes: &Vec<Node>, name: &str) -> (res: Option<usize>)
    ensures
        match res {
            Some(k) => file_index_from(nodes_view(nodes@), name@, 0) == Some(k as int),
            None => file_index_from(nodes_view(nodes@), name@, 0) is None,
        },
{
    proof {
        lemma_nodes_view(nodes@);
    }
    let mut i: usize = 0;
    while i < nodes.len()
        invariant
            i <= nodes.len(),
            nodes_view(nodes@).len() == nodes@.len(),
            forall|j: int| 0 <= j < nodes@.len() ==> #[trigger] nodes_view(nodes@)[j] == node_view(nodes@[j]),
            file_index_from(nodes_view(nodes@), name@, 0) == file_index_from(nodes_view(nodes@), name@, i as int),
        decreases nodes.len() - i,
    {
        let hit = match &nodes[i] {
            Node::File(existing) => crate::text::str_eq(existing.name.as_str(), name),
            Node::Directory { .. } => false,
        };
        assert(hit == is_file_named(nodes_view(nodes@)[i as int], name@));
        if hit {
            return Some(i);
        }
        i = i + 1;
    }
    None
}

/// The first index of a directory called `name`.
fn dir_position(nodes: &Vec<Node>, name: &str) -> (res: Option<usize>)
    ensures
        match res {
            Some(k) => dir_index_from(nodes_view(nodes@), name@, 0) == Some(k as int),
            None => dir_index_from(nodes_view(nodes@), name@, 0) is None,
        },
{
    proof {
        lemma_nodes_view(nodes@);
    }
    let mut i: usize = 0;
    while i < nodes.len()
        invariant
            i <= nodes.len(),
            nodes_view(nodes@).len() == nodes@.len(),
            forall|j: int| 0 <= j < nodes@.len() ==> #[trigger] nodes_view(nodes@)[j] == node_view(nodes@[j]),
            dir_index_from(nodes_view(nodes@), name@, 0) == dir_index_from(nodes_view(nodes@), name@, i as int),
        decreases nodes.len() - i,
    {
        let hit = match &nodes[i] {
            Node::Directory { name: n, .. } => crate::text::str_eq(n.as_str(), name),
            Node::File(_) => false,
        };
        assert(hit == is_dir_named(nodes_view(nodes@)[i as int], name@));
        if hit {
            return Some(i);
        }
        i = i + 1;
    }
    None
}

/// Replaces the first file of the same name, or adds the file at the end.
pub fn upsert_file(nodes: &mut Vec<Node>, file: FileEntry)
    ensures
        nodes_view(final(nodes)@) == upsert_file_items(nodes_view(old(nodes)@), file_item(file)),
{
    match file_position(nodes, file.name.as_str()) {
        Some(i) => {
            proof {
                lemma_nodes_view(nodes@);
                lemma_file_index_from(nodes_view(nodes@), file.name@, 0);
                lemma_nodes_view_update(nodes@, i as int, Node::File(file));
            }
            let ghost before = nodes@;
            let ghost fi = file_item(file);
            assert(item_name(fi) == file.name@);
            let n = Node::File(file);
            assert(node_view(n) == fi);
            nodes.set(i, n);
            assert(nodes@ == before.update(i as int, n));
        },
        None => {
            let ghost before = nodes@;
            let ghost fi = file_item(file);
            assert(item_name(fi) == file.name@);
            let n = Node::File(file);
            assert(node_view(n) == fi);
            nodes.push(n);
            assert(nodes@.drop_last() =~= before);
            assert(nodes_view(nodes@) == nodes_view(before).push(fi));
        },
    }
}

/// The index of the first directory called `name`, added at the end when
/// there is none; its children are where a path continues.
pub fn directory_children(nodes: &mut Vec<Node>, name: &str) -> (res: usize)
    ensures
        res < final(nodes)@.len(),
        nodes_view(final(nodes)@).len() == final(nodes)@.len(),
        is_dir_named(nodes_view(final(nodes)@)[res as int], name@),
        match dir_index_from(nodes_view(old(nodes)@), name@, 0) {
            Some(i) => res == i && final(nodes)@ == old(nodes)@,
            None => res == old(nodes)@.len() && nodes_view(final(nodes)@) == nodes_view(old(nodes)@).push(
                Item::Dir { name: name@, children: seq![] },
            ) && final(nodes)@.len() == old(nodes)@.len() + 1,
        },
{
    match dir_position(nodes, name) {
        Some(i) => {
            proof {
                lemma_nodes_view(nodes@);
                lemma_dir_index_from(nodes_view(nodes@), name@, 0);
            }
            i
        },
        None => {
            let ghost before = nodes@;
            let n = crate::text::to_string(name);
            let empty: Vec<Node> = Vec::new();
            assert(nodes_view(empty@) =~= Seq::<Item>::empty());
            nodes.push(Node::Directory { name: n, children: empty });
            assert(nodes@.drop_last() =~= before);
            proof {
                lemma_nodes_view(nodes@);
            }
            nodes.len() - 1
        },
    }
}

/// Places `file` below the directories `path[k..]`.
pub fn upsert_path_in_nodes(nodes: &mut Vec<Node>, path: &[String], k: usize, file: FileEntry)
    requires
        k <= path.len(),
    ensures
        nodes_view(final(nodes)@) == upsert_path_items(
            nodes_view(old(nodes)@),
            string_views(path@).skip(k as int),
            file_item(file),
        ),
    decreases path.len() - k,
{
    let ghost p = string_views(path@).skip(k as int);
    if k == path.len() {
        assert(p =~= Seq::<Seq<char>>::empty());
        upsert_file(nodes, file);
        return;
    }
    assert(p[0] == path@[k as int]@);
    assert(p.drop_first() =~= string_views(path@).skip(k + 1));
    let ghost before = nodes@;
    let idx = directory_children(nodes, path[k].as_str());
    let ghost mid = nodes@;
    proof {
        lemma_nodes_view(before);
        lemma_nodes_view(mid);
        lemma_dir_index_from(nodes_view(before), p[0], 0);
    }
    let node = nodes.remove(idx);
    assert(node == mid[idx as int]);
    assert(node_view(node) == nodes_view(mid)[idx as int]);
    match node {
        Node::Directory { name, children } => {
            assert(name@ == p[0]);
            assert(nodes_view(children@) == dir_children(nodes_view(mid)[idx as int]));
            let mut children = children;
            upsert_path_in_nodes(&mut children, path, k + 1, file);
            let new_node = Node::Directory { name, children };
            nodes.insert(idx, new_node);
            assert(nodes@ =~= mid.update(idx as int, new_node));
            proof {
                lemma_nodes_view_update(mid, idx as int, new_node);
                let v = nodes_view(before);
                let x = Item::Dir {
                    name: p[0],
                    children: upsert_path_items(dir_children(nodes_view(mid)[idx as int]), p.drop_first(), file_item(file)),
                };
                assert(node_view(new_node) == x);
                match dir_index_from(v, p[0], 0) {
                    Some(i) => {
                        assert(nodes_view(nodes@) == v.update(i, x));
                    },
                    None => {
                        assert(dir_children(nodes_view(mid)[idx as int]) =~= Seq::<Item>::empty());
                        assert(nodes_view(nodes@) =~= v.push(x));
                    },
                }
            }
        },
        Node::File(f) => {
            proof {
                assert(false);
            }
            nodes.insert(idx, Node::File(f));
        },
    }
}

// ---------------------------------------------------------------------------
// Reading the text.
// ---------------------------------------------------------------------------

/// A line without a final `\r`.
pub open spec fn strip_cr(l: Seq<char>) -> Seq<char> {
    if l.len() > 0 && l.last() == '\r' {
        l.drop_last()
    } else {
        l
    }
}

/// The lines of a text, as `str::lines` gives them: split at `\n`, a `\r`
/// before the `\n` dropped, no empty line after a final `\n`.
pub open spec fn lines_spec(s: Seq<char>) -> Seq<Seq<char>>
    decreases s.len(),
{
    if s.len() == 0 {
        seq![]
    } else {
        match find_char(s, '\n') {
            Some(i) => if 0 <= i < s.len() {
                seq![strip_cr(s.take(i))] + lines_spec(s.skip(i + 1))
            } else {
                seq![s]
            },
            None => seq![s],
        }
    }
}

/// The lines that hold more than whitespace.
pub open spec fn nonblank(lines: Seq<Seq<char>>) -> Seq<Seq<char>>
    decreases lines.len(),
{
    if lines.len() == 0 {
        seq![]
    } else {
        let rest = nonblank(lines.drop_last());
        if trim(lines.last()).len() > 0 {
            rest.push(lines.last())
        } else {
            rest
        }
    }
}

/// The number of leading spaces.
pub open spec fn lead_spaces(s: Seq<char>) -> nat
    decreases s.len(),
{
    if s.len() > 0 && s[0] == ' ' {
        1 + lead_spaces(s.drop_first())
    } else {
        0
    }
}

/// Whether a text holds a link.
pub open spec fn contains_url_spec(v: Seq<char>) -> bool {
    contains(v, "http://"@) || contains(v, "https://"@)
}

/// Where the link of a file line starts: at the first `http://`, else at the
/// first `https://`, else at the end.
pub open spec fn url_index(line: Seq<char>) -> int {
    match find(line, "http://"@) {
        Some(i) => i,
        None => match find(line, "https://"@) {
            Some(i) => i,
            None => line.len() as int,
        },
    }
}

/// The file that a (trimmed) file line describes: the link from
/// `url_index` on; before it, without trailing `:`, the `:`-separated name,
/// size and modification time. A missing or empty name is the last segment
/// of the link; an unreadable number is 0.
pub open spec fn parse_file_line_spec(line: Seq<char>) -> Item {
    let ui = url_index(line);
    let url = line.skip(ui);
    let info = trim_end_char(line.take(ui), ':');
    let parts = split_char(info, ':');
    let name = if parts.len() > 0 && parts[0].len() > 0 {
        parts[0]
    } else {
        last_segment(url)
    };
    let size: u64 = if parts.len() > 1 {
        match parse_u64(parts[1]) {
            Some(v) => v,
            None => 0,
        }
    } else {
        0
    };
    let modified: i64 = if parts.len() > 2 {
        match parse_i64(parts[2]) {
            Some(v) => v,
            None => 0,
        }
    } else {
        0
    };
    Item::File { name, size, modified, url }
}

/// The items at `level` read from `lines[index..]`, and the index of the first
/// line not read. A line indented by `2 * level` (rounded down) starts an
/// item; a deeper line that no directory claims is skipped; a shallower line
/// ends the level. A line ending in `:` without a link is a directory whose
/// children are the deeper lines after it.
pub open spec fn parse_nodes_spec(lines: Seq<Seq<char>>, index: nat, level: nat) -> (Seq<Item>, nat)
    decreases lines.len() + 1 - index,
{
    if index >= lines.len() {
        (seq![], index)
    } else {
        let line = lines[index as int];
        let cur = lead_spaces(line) / 2;
        if cur < level {
            (seq![], index)
        } else if cur > level {
            parse_nodes_spec(lines, index + 1, level)
        } else {
            let t = trim(line);
            if ends_with(t, seq![':']) && !contains_url_spec(t) {
                let (children, ni) = parse_nodes_spec(lines, index + 1, level + 1);
                if index < ni <= lines.len() {
                    let (rest, end) = parse_nodes_spec(lines, ni, level);
                    (seq![Item::Dir { name: trim_end_char(t, ':'), children: children }] + rest, end)
                } else {
                    (seq![], index)
                }
            } else {
                let (rest, end) = parse_nodes_spec(lines, index + 1, level);
                (seq![parse_file_line_spec(t)] + rest, end)
            }
        }
    }
}

/// Parsing moves forward and stays within the lines.
pub proof fn lemma_parse_index(lines: Seq<Seq<char>>, index: nat, level: nat)
    requires
        index <= lines.len(),
    ensures
        index <= parse_nodes_spec(lines, index, level).1 <= lines.len(),
        index < lines.len() && lead_spaces(lines[index as int]) / 2 >= level ==> index < parse_nodes_spec(
            lines,
            index,
            level,
        ).1,
    decreases lines.len() + 1 - index,
{
    if index < lines.len() {
        let line = lines[index as int];
        let cur = lead_spaces(line) / 2;
        if cur < level {
        } else if cur > level {
            lemma_parse_index(lines, index + 1, level);
        } else {
            let t = trim(line);
            if ends_with(t, seq![':']) && !contains_url_spec(t) {
                lemma_parse_index(lines, index + 1, level + 1);
                let ni = parse_nodes_spec(lines, index + 1, level + 1).1;
                lemma_parse_index(lines, ni, level);
            } else {
                lemma_parse_index(lines, index + 1, level);
            }
        }
    }
}

/// The lines of a text.
pub fn lines_exec(s: &[char]) -> (res: Vec<Vec<char>>)
    ensures
        views(res@) == lines_spec(s@),
{
    let mut out: Vec<Vec<char>> = Vec::new();
    let mut rest: Vec<char> = slice_chars(s, 0, s.len());
    assert(rest@ =~= s@);
    assert(views(out@) =~= Seq::<Seq<char>>::empty());
    loop
        invariant
            lines_spec(s@) == views(out@) + lines_spec(rest@),
        decreases rest.len(),
    {
        let ghost r = rest@;
        let ghost o = views(out@);
        if rest.len() == 0 {
            assert(views(out@) =~= views(out@) + lines_spec(r));
            return out;
        }
        match find_char_exec(&rest, '\n') {
            None => {
                assert(lines_spec(r) == seq![r]);
                out.push(rest);
                assert(views(out@) =~= o + seq![r]);
                return out;
            },
            Some(i) => {
                let mut line = slice_chars(&rest, 0, i);
                if line.len() > 0 && line[line.len() - 1] == '\r' {
                    line.pop();
                }
                assert(line@ == strip_cr(r.take(i as int)));
                let tail = slice_chars(&rest, i + 1, rest.len());
                assert(lines_spec(r) == seq![strip_cr(r.take(i as int))] + lines_spec(r.skip(i + 1)));
                out.push(line);
                assert(views(out@) =~= o + seq![strip_cr(r.take(i as int))]);
                rest = tail;
            },
        }
    }
}

/// The lines that hold more than whitespace.
pub fn nonblank_exec(lines: Vec<Vec<char>>) -> (res: Vec<Vec<char>>)
    ensures
        views(res@) == nonblank(views(lines@)),
{
    let mut out: Vec<Vec<char>> = Vec::new();
    let ghost ls = views(lines@);
    let mut lines = lines;
    // Walk the lines in order, moving each kept one into the output.
    let mut taken: Vec<Vec<char>> = Vec::new();
    while lines.len() > 0
        invariant
            ls == views(taken@) + views(lines@),
            views(out@) == nonblank(views(taken@)),
        decreases lines.len(),
    {
        let first = lines.remove(0);
        let ghost tk = views(taken@);
        let ghost o = views(out@);
        let t = trim_chars(&first);
        let keep = t.len() > 0;
        if keep {
            out.push(slice_chars(&first, 0, first.len()));
            assert(first@.subrange(0, first@.len() as int) =~= first@);
            assert(views(out@) =~= o.push(first@));
        }
        taken.push(first);
        assert(views(taken@) =~= tk.push(first@));
        assert(views(taken@).drop_last() =~= tk);
    }
    assert(views(taken@) =~= ls);
    out
}

/// Number of leading spaces of a line.
pub fn lead_spaces_exec(s: &[char]) -> (res: usize)
    ensures
        res == lead_spaces(s@),
{
    let mut i: usize = 0;
    assert(s@.skip(0) =~= s@);
    while i < s.len() && s[i] == ' '
        invariant
            i <= s.len(),
            lead_spaces(s@) == i + lead_spaces(s@.skip(i as int)),
        decreases s.len() - i,
    {
        assert(s@.skip(i as int).drop_first() =~= s@.skip(i + 1));
        i = i + 1;
    }
    i
}

/// Whether a text holds `http://` or `https://`.
pub fn contains_url(value: &[char]) -> (res: bool)
    ensures
        res == contains_url_spec(value@),
{
    let a = chars_of("http://");
    let b = chars_of("https://");
    contains_chars(value, &a) || contains_chars(value, &b)
}

/// The file that a trimmed file line describes.
pub fn parse_file_line(line: &[char]) -> (res: FileEntry)
    ensures
        file_item(res) == parse_file_line_spec(line@),
{
    let a = chars_of("http://");
    let b = chars_of("https://");
    let ui: usize = match find_first(line, &a) {
        Some(i) => i,
        None => match find_first(line, &b) {
            Some(i) => i,
            None => line.len(),
        },
    };
    assert(ui == url_index(line@));
    let url = slice_chars(line, ui, line.len());
    let head = slice_chars(line, 0, ui);
    let info = trim_end_char_exec(&head, ':');
    let parts = split_char_exec(&info, ':');
    let name: Vec<char> = if parts.len() > 0 && parts[0].len() > 0 {
        slice_chars(&parts[0], 0, parts[0].len())
    } else {
        match rfind_char_exec(&url, '/') {
            Some(i) => slice_chars(&url, i + 1, url.len()),
            None => slice_chars(&url, 0, url.len()),
        }
    };
    proof {
        assert(url@.subrange(0, url@.len() as int) =~= url@);
        if parts@.len() > 0 {
            assert(parts@[0]@.subrange(0, parts@[0]@.len() as int) =~= parts@[0]@);
        }
    }
    let size: u64 = if parts.len() > 1 {
        match parse_u64_exec(&parts[1]) {
            Some(v) => v,
            None => 0,
        }
    } else {
        0
    };
    let modified: i64 = if parts.len() > 2 {
        match parse_i64_exec(&parts[2]) {
            Some(v) => v,
            None => 0,
        }
    } else {
        0
    };
    FileEntry { name: string_of(&name), size, modified, url: string_of(&url) }
}

/// The nodes at `level` read from `lines[index..]`, and the index of the
/// first line not read.
pub fn parse_nodes(lines: &Vec<Vec<char>>, index: usize, level: usize) -> (res: (Vec<Node>, usize))
    requires
        index <= lines.len(),
        level <= index,
    ensures
        nodes_view(res.0@) == parse_nodes_spec(views(lines@), index as nat, level as nat).0,
        res.1 == parse_nodes_spec(views(lines@), index as nat, level as nat).1,
    decreases lines.len() - index,
{
    let ghost ls = views(lines@);
    let mut nodes: Vec<Node> = Vec::new();
    let mut i = index;
    assert(nodes_view(nodes@) =~= Seq::<Item>::empty());
    assert(parse_nodes_spec(ls, index as nat, level as nat) == (
        nodes_view(nodes@) + parse_nodes_spec(ls, i as nat, level as nat).0,
        parse_nodes_spec(ls, i as nat, level as nat).1,
    ));
    loop
        invariant
            index <= i <= lines.len(),
            level <= index,
            ls == views(lines@),
            parse_nodes_spec(ls, index as nat, level as nat) == (
                nodes_view(nodes@) + parse_nodes_spec(ls, i as nat, level as nat).0,
                parse_nodes_spec(ls, i as nat, level as nat).1,
            ),
        decreases lines.len() - i,
    {
        if i >= lines.len() {
            assert(nodes_view(nodes@) + Seq::<Item>::empty() =~= nodes_view(nodes@));
            return (nodes, i);
        }
        let line = &lines[i];
        assert(line@ == ls[i as int]);
        let cur = lead_spaces_exec(line) / 2;
        if cur < level {
            assert(nodes_view(nodes@) + Seq::<Item>::empty() =~= nodes_view(nodes@));
            return (nodes, i);
        }
        if cur > level {
            i = i + 1;
            continue;
        }
        let t = trim_chars(line);
        let colon = vec![':'];
        assert(colon@ =~= seq![':']);
        let ghost o = nodes_view(nodes@);
        if crate::text::ends_with_chars(&t, &colon) && !contains_url(&t) {
            let (children, ni) = parse_nodes(lines, i + 1, level + 1);
            proof {
                lemma_parse_index(ls, (i + 1) as nat, (level + 1) as nat);
            }
            let name_cs = trim_end_char_exec(&t, ':');
            let node = Node::Directory { name: string_of(&name_cs), children };
            let ghost it = node_view(node);
            let ghost before = nodes@;
            nodes.push(node);
            assert(nodes@.drop_last() =~= before);
            assert(nodes_view(nodes@) == o.push(it));
            assert(o.push(it) + parse_nodes_spec(ls, ni as nat, level as nat).0 =~= o + (seq![it]
                + parse_nodes_spec(ls, ni as nat, level as nat).0));
            i = ni;
        } else {
            let f = parse_file_line(&t);
            let node = Node::File(f);
            let ghost it = node_view(node);
            let ghost before = nodes@;
            nodes.push(node);
            assert(nodes@.drop_last() =~= before);
            assert(nodes_view(nodes@) == o.push(it));
            assert(o.push(it) + parse_nodes_spec(ls, (i + 1) as nat, level as nat).0 =~= o + (seq![it]
                + parse_nodes_spec(ls, (i + 1) as nat, level as nat).0));
            i = i + 1;
        }
    }
}

// ---------------------------------------------------------------------------
// The tree.
// ---------------------------------------------------------------------------

/// The tree that a text describes.
pub open spec fn parse_spec(text: Seq<char>) -> Seq<Item> {
    parse_nodes_spec(nonblank(lines_spec(text)), 0, 0).0
}

/// The text of a tree, without trailing whitespace.
pub open spec fn structure_spec(items: Seq<Item>) -> Seq<char> {
    trim_end(items_str(items, 0))
}

impl Tree {
    /// An empty tree.
    pub fn new() -> (res: Self)
        ensures
            res@ == Seq::<Item>::empty(),
    {
        let t = Tree { children: Vec::new() };
        assert(t@ =~= Seq::<Item>::empty());
        t
    }

    /// The tree that a `UrlTree` text describes; blank lines are ignored.
    pub fn parse(text: &str) -> (res: Self)
        ensures
            res@ == parse_spec(text@),
    {
        let cs = chars_of(text);
        let lines = lines_exec(&cs);
        let kept = nonblank_exec(lines);
        let (children, _) = parse_nodes(&kept, 0, 0);
        Tree { children }
    }

    /// Places `file` below the directories `path`, replacing a file of the
    /// same name there; missing directories are created.
    pub fn upsert_path(&mut self, path: &[String], file: FileEntry)
        ensures
            final(self)@ == upsert_path_items(old(self)@, string_views(path@), file_item(file)),
    {
        assert(string_views(path@).skip(0) =~= string_views(path@));
        upsert_path_in_nodes(&mut self.children, path, 0, file);
    }

    /// Whether the tree is shallow enough for its text to be written
    /// (its indentation fits in `usize`).
    pub closed spec fn fits(&self) -> bool {
        2 * nodes_depth(self.children@) <= usize::MAX
    }

    /// Whether the text of the tree can be written (`fits`).
    pub fn fits_exec(&self) -> (res: bool)
        ensures
            res == self.fits(),
    {
        depth_at_most(&self.children, usize::MAX / 2)
    }

    /// The `UrlTree` text of the tree, without trailing whitespace.
    pub fn to_structure(&self) -> (res: String)
        requires
            self.fits(),
        ensures
            res@ == structure_spec(self@),
    {
        let out = stringify_nodes(&self.children, 0);
        let n = trim_end_index(&out);
        let t = slice_chars(&out, 0, n);
        string_of(&t)
    }
}

impl Default for Tree {
    fn default() -> (res: Self)
        ensures
            res@ == Seq::<Item>::empty(),
    {
        Tree::new()
    }
}

// ---------------------------------------------------------------------------
// Law: reading the text of a tree gives the tree back.
// ---------------------------------------------------------------------------

/// A file name that the text format can carry: not empty, not beginning with
/// whitespace, without `:`, line ends or links.
pub open spec fn wf_name(n: Seq<char>) -> bool {
    &&& n.len() > 0
    &&& !is_ws(n[0])
    &&& lacks(n, ':')
    &&& lacks(n, '\n')
    &&& !contains_url_spec(n)
}

/// A directory name that the text format can carry: it may be empty or hold
/// `:`, but does not begin with whitespace, end with `:`, hold a line end or
/// hold a link marker.
pub open spec fn wf_dir_name(n: Seq<char>) -> bool {
    &&& (n.len() == 0 || (!is_ws(n[0]) && n.last() != ':'))
    &&& lacks(n, '\n')
    &&& !contains_url_spec(n)
}

/// A link that the text format can carry: an `http://` link, or an
/// `https://` link without `http://` in it; no line end, no trailing
/// whitespace.
pub open spec fn wf_url(u: Seq<char>) -> bool {
    &&& u.len() > 0
    &&& !is_ws(u.last())
    &&& lacks(u, '\n')
    &&& (starts_with(u, "http://"@) || (starts_with(u, "https://"@) && !contains(u, "http://"@)))
}

pub open spec fn wf_item(it: Item) -> bool
    decreases it,
{
    match it {
        Item::Dir { name, children } => wf_dir_name(name) && forall|i: int|
            0 <= i < children.len() ==> wf_item(#[trigger] children[i]),
        Item::File { name, url, .. } => wf_name(name) && wf_url(url),
    }
}

pub open spec fn wf_items(items: Seq<Item>) -> bool {
    forall|i: int| 0 <= i < items.len() ==> wf_item(#[trigger] items[i])
}

/// The lines of the text of some items, without line ends.
pub open spec fn items_lines(items: Seq<Item>, indent: nat) -> Seq<Seq<char>>
    decreases items,
{
    if items.len() == 0 {
        seq![]
    } else {
        items_lines(items.drop_last(), indent) + item_lines(items.last(), indent)
    }
}

pub open spec fn item_lines(it: Item, indent: nat) -> Seq<Seq<char>>
    decreases it,
{
    match it {
        Item::Dir { name, children } => seq![spaces(indent) + name + seq![':']] + items_lines(children, indent + 2),
        Item::File { name, size, modified, url } => seq![spaces(indent) + file_line(name, size, modified, url)],
    }
}

/// Lines, each followed by `\n`.
pub open spec fn join_lines(ls: Seq<Seq<char>>) -> Seq<char>
    decreases ls.len(),
{
    if ls.len() == 0 {
        seq![]
    } else {
        join_lines(ls.drop_last()) + ls.last() + seq!['\n']
    }
}

pub proof fn lemma_join_lines_add(a: Seq<Seq<char>>, b: Seq<Seq<char>>)
    ensures
        join_lines(a + b) == join_lines(a) + join_lines(b),
    decreases b.len(),
{
    if b.len() == 0 {
        assert(a + b =~= a);
    } else {
        lemma_join_lines_add(a, b.drop_last());
        assert((a + b).drop_last() =~= a + b.drop_last());
        assert((a + b).last() == b.last());
    }
}

pub proof fn lemma_items_str_lines(items: Seq<Item>, indent: nat)
    ensures
        items_str(items, indent) == join_lines(items_lines(items, indent)),
    decreases items,
{
    if items.len() > 0 {
        lemma_items_str_lines(items.drop_last(), indent);
        lemma_item_str_lines(items.last(), indent);
        lemma_join_lines_add(items_lines(items.drop_last(), indent), item_lines(items.last(), indent));
    }
}

pub proof fn lemma_item_str_lines(it: Item, indent: nat)
    ensures
        item_str(it, indent) == join_lines(item_lines(it, indent)),
    decreases it,
{
    match it {
        Item::Dir { name, children } => {
            lemma_items_str_lines(children, indent + 2);
            let h = spaces(indent) + name + seq![':'];
            lemma_join_lines_add(seq![h], items_lines(children, indent + 2));
            assert(seq![h].drop_last() =~= Seq::<Seq<char>>::empty());
            assert(join_lines(Seq::<Seq<char>>::empty()) == Seq::<char>::empty());
            assert(seq![h].last() == h);
            assert(join_lines(seq![h]) =~= h + seq!['\n']);
            assert(item_str(it, indent) =~= h + seq!['\n'] + items_str(children, indent + 2));
        },
        Item::File { name, size, modified, url } => {
            let h = spaces(indent) + file_line(name, size, modified, url);
            assert(seq![h].drop_last() =~= Seq::<Seq<char>>::empty());
            assert(join_lines(Seq::<Seq<char>>::empty()) == Seq::<char>::empty());
            assert(seq![h].last() == h);
            assert(join_lines(seq![h]) =~= h + seq!['\n']);
            assert(item_str(it, indent) =~= h + seq!['\n']);
        },
    }
}

/// The lines of some items are those of the first one, then those of the others.
pub proof fn lemma_items_lines_front(items: Seq<Item>, indent: nat)
    requires
        items.len() > 0,
    ensures
        items_lines(items, indent) == item_lines(items[0], indent) + items_lines(items.drop_first(), indent),
    decreases items.len(),
{
    if items.len() == 1 {
        assert(items.drop_last() =~= Seq::<Item>::empty());
        assert(items.drop_first() =~= Seq::<Item>::empty());
        assert(items_lines(Seq::<Item>::empty(), indent) == Seq::<Seq<char>>::empty());
        assert(items.last() == items[0]);
        assert(items_lines(items, indent) =~= item_lines(items[0], indent));
        assert(item_lines(items[0], indent) + Seq::<Seq<char>>::empty() =~= item_lines(items[0], indent));
    } else {
        lemma_items_lines_front(items.drop_last(), indent);
        assert(items.drop_last()[0] == items[0]);
        assert(items.drop_last().drop_first() =~= items.drop_first().drop_last());
        assert(items.drop_first().last() == items.last());
        assert(items_lines(items, indent) =~= item_lines(items[0], indent) + items_lines(items.drop_first(), indent));
    }
}

/// Leading spaces are counted.
pub proof fn lemma_lead_spaces(k: nat, s: Seq<char>)
    requires
        s.len() > 0,
        s[0] != ' ',
    ensures
        lead_spaces(spaces(k) + s) == k,
    decreases k,
{
    crate::text::lemma_repeat_space(k);
    if k > 0 {
        let t = spaces(k) + s;
        crate::text::lemma_repeat_space((k - 1) as nat);
        assert(t[0] == ' ');
        assert(t.drop_first() =~= spaces((k - 1) as nat) + s);
        lemma_lead_spaces((k - 1) as nat, s);
    } else {
        assert(spaces(0) + s =~= s);
    }
}

/// Trimming a line gives its text after the indentation.
pub proof fn lemma_trim_line(k: nat, s: Seq<char>)
    requires
        s.len() > 0,
        !is_ws(s[0]),
        !is_ws(s.last()),
    ensures
        trim(spaces(k) + s) == s,
{
    crate::text::lemma_trim_start_spaces(k, s);
    crate::text::lemma_trim_nonws(s);
}

pub open spec fn colon_index(p: Seq<char>) -> int {
    if p == "http://"@ {
        4
    } else {
        5
    }
}

/// A link marker begins with `h`, holds one `:`, and a `/` follows it.
pub proof fn lemma_marker(p: Seq<char>)
    requires
        p == "http://"@ || p == "https://"@,
    ensures
        p.len() >= 7,
        p[0] == 'h',
        0 < colon_index(p) < p.len() - 1,
        p[colon_index(p)] == ':',
        p[colon_index(p) + 1] == '/',
        forall|t: int| 0 <= t < p.len() && t != colon_index(p) ==> p[t] != ':',
{
    reveal_strlit("http://");
    reveal_strlit("https://");
}

/// A marker does not begin before the link of a file line.
pub proof fn lemma_no_marker_in_prefix(name: Seq<char>, rest: Seq<char>, p: Seq<char>, j: int)
    requires
        p == "http://"@ || p == "https://"@,
        wf_name(name),
        rest.len() >= 2,
        is_digit(rest[0]),
        forall|t: int| 0 <= t < rest.len() ==> rest[t] != 'h' || t >= 1,
        0 <= j < name.len() + 1,
    ensures
        !occurs_at(name + seq![':'] + rest, p, j),
{
    lemma_marker(p);
    let l = name + seq![':'] + rest;
    if occurs_at(l, p, j) {
        assert(l.subrange(j, j + p.len())[0] == l[j]);
        assert(l[j] == 'h');
        if j == name.len() {
            assert(l[j] == ':');
        }
        if j + p.len() <= name.len() {
            assert(name.subrange(j, j + p.len()) =~= l.subrange(j, j + p.len()));
            assert(occurs_at(name, p, j));
            assert(contains(name, p));
        } else {
            let k = name.len() - j;
            assert(0 < k < p.len());
            assert(l.subrange(j, j + p.len())[k] == l[name.len() as int]);
            assert(p[k] == ':');
            assert(k == colon_index(p));
            assert(l.subrange(j, j + p.len())[k + 1] == l[name.len() as int + 1]);
            assert(l[name.len() as int + 1] == rest[0]);
            assert(p[k + 1] == '/');
        }
    }
}

/// What the prefix of a file line is made of: no `h` after the name.
pub proof fn lemma_prefix_chars(name: Seq<char>, size: u64, modified: i64, j: int)
    requires
        name.len() <= j < (name + seq![':'] + nat_str(size as nat) + seq![':'] + int_str(modified as int) + seq![':']).len(),
    ensures
        (name + seq![':'] + nat_str(size as nat) + seq![':'] + int_str(modified as int) + seq![':'])[j] != 'h',
{
    crate::text::lemma_nat_str(size as nat);
    crate::text::lemma_parse_int_str(modified);
    let a = nat_str(size as nat);
    let b = int_str(modified as int);
    let pre = name + seq![':'] + a + seq![':'] + b + seq![':'];
    let n = name.len() as int;
    if j == n || j == n + 1 + a.len() || j == n + 2 + a.len() + b.len() {
    } else if j < n + 1 + a.len() {
        assert(pre[j] == a[j - n - 1]);
        assert(is_digit(a[j - n - 1]));
    } else {
        assert(pre[j] == b[j - n - 2 - a.len()]);
        assert(is_digit(b[j - n - 2 - a.len()]) || b[j - n - 2 - a.len()] == '-');
    }
}

/// A well-formed file line has no blank ends and no line break.
pub proof fn lemma_file_line_shape(name: Seq<char>, size: u64, modified: i64, url: Seq<char>)
    requires
        wf_name(name),
        wf_url(url),
    ensures
        file_line(name, size, modified, url).len() > 0,
        !is_ws(file_line(name, size, modified, url)[0]),
        !is_ws(file_line(name, size, modified, url).last()),
        lacks(file_line(name, size, modified, url), '\n'),
{
    crate::text::lemma_nat_str(size as nat);
    crate::text::lemma_parse_int_str(modified);
    let a = nat_str(size as nat);
    let b = int_str(modified as int);
    let pre = name + seq![':'] + a + seq![':'] + b + seq![':'];
    let l = pre + url;
    let pl = pre.len() as int;
    assert(l =~= file_line(name, size, modified, url));
    assert(l[0] == name[0]);
    assert(l.last() == url.last());
    assert forall|i: int| 0 <= i < l.len() implies l[i] != '\n' by {
        if i < name.len() {
            assert(l[i] == name[i]);
        } else if i >= pl {
            assert(l[i] == url[i - pl]);
        } else {
            lemma_prefix_chars(name, size, modified, i);
            assert(l[i] == pre[i]);
        }
    }
}

/// The link of a well-formed file line is found right after its fields.
pub proof fn lemma_file_line_url(name: Seq<char>, size: u64, modified: i64, url: Seq<char>)
    requires
        wf_name(name),
        wf_url(url),
    ensures
        contains_url_spec(file_line(name, size, modified, url)),
        url_index(file_line(name, size, modified, url)) == (name + seq![':'] + nat_str(size as nat)
            + seq![':'] + int_str(modified as int) + seq![':']).len(),
{
    crate::text::lemma_nat_str(size as nat);
    let a = nat_str(size as nat);
    let b = int_str(modified as int);
    let pre = name + seq![':'] + a + seq![':'] + b + seq![':'];
    let l = pre + url;
    let pl = pre.len() as int;
    assert(l =~= file_line(name, size, modified, url));
    // No marker starts before the link.
    let rest = a + seq![':'] + b + seq![':'] + url;
    assert(l =~= name + seq![':'] + rest);
    assert(rest[0] == a[0]);
    assert forall|p: Seq<char>, j: int| (p == "http://"@ || p == "https://"@) && 0 <= j < pl implies !occurs_at(l, p, j) by {
        lemma_marker(p);
        if j < name.len() + 1 {
            lemma_no_marker_in_prefix(name, rest, p, j);
        } else if occurs_at(l, p, j) {
            assert(l.subrange(j, j + p.len())[0] == l[j]);
            lemma_prefix_chars(name, size, modified, j);
            assert(l[j] == pre[j]);
        }
    }
    // The marker of the link.
    let hp = "http://"@;
    let hs = "https://"@;
    lemma_marker(hp);
    lemma_marker(hs);
    if starts_with(url, hp) {
        assert(l.subrange(pl, pl + hp.len()) =~= url.subrange(0, hp.len() as int));
        assert(occurs_at(l, hp, pl));
        crate::text::lemma_find_first_at(l, hp, pl);
        assert(contains(l, hp));
    } else {
        assert(starts_with(url, hs) && !contains(url, hp));
        assert forall|j: int| 0 <= j implies !occurs_at(l, hp, j) by {
            if j >= pl && occurs_at(l, hp, j) {
                assert(url.subrange(j - pl, j - pl + hp.len()) =~= l.subrange(j, j + hp.len()));
                assert(occurs_at(url, hp, j - pl));
            }
        }
        crate::text::lemma_find_none(l, hp);
        assert(l.subrange(pl, pl + hs.len()) =~= url.subrange(0, hs.len() as int));
        assert(occurs_at(l, hs, pl));
        crate::text::lemma_find_first_at(l, hs, pl);
        assert(contains(l, hs));
    }
}

/// The fields before the link of a file line split back into name, size and
/// modification time.
pub proof fn lemma_file_line_fields(name: Seq<char>, size: u64, modified: i64)
    requires
        wf_name(name),
    ensures
        split_char(trim_end_char(name + seq![':'] + nat_str(size as nat) + seq![':']
            + int_str(modified as int) + seq![':'], ':'), ':')
            == seq![name, nat_str(size as nat), int_str(modified as int)],
{
    crate::text::lemma_nat_str(size as nat);
    crate::text::lemma_parse_int_str(modified);
    let a = nat_str(size as nat);
    let b = int_str(modified as int);
    let x = name + seq![':'] + a + seq![':'] + b;
    let pre = x + seq![':'];
    assert(pre =~= name + seq![':'] + a + seq![':'] + b + seq![':']);
    assert(pre.drop_last() =~= x);
    assert(x.last() == b.last());
    assert(crate::text::trim_end_char(pre, ':') == crate::text::trim_end_char(x, ':'));
    assert(crate::text::trim_end_char(x, ':') == x);
    crate::text::lemma_split_cons(name, ':', a + seq![':'] + b);
    assert(x =~= name + seq![':'] + (a + seq![':'] + b));
    crate::text::lemma_split_cons(a, ':', b);
    crate::text::lemma_split_lacks(b, ':');
    assert(split_char(x, ':') =~= seq![name, a, b]);
}

/// A well-formed file line is read back as the file it was written from.
pub proof fn lemma_file_line_parse(name: Seq<char>, size: u64, modified: i64, url: Seq<char>)
    requires
        wf_name(name),
        wf_url(url),
    ensures
        file_line(name, size, modified, url).len() > 0,
        !is_ws(file_line(name, size, modified, url)[0]),
        !is_ws(file_line(name, size, modified, url).last()),
        lacks(file_line(name, size, modified, url), '\n'),
        contains_url_spec(file_line(name, size, modified, url)),
        parse_file_line_spec(file_line(name, size, modified, url)) == (Item::File { name, size, modified, url }),
{
    lemma_file_line_shape(name, size, modified, url);
    lemma_file_line_url(name, size, modified, url);
    lemma_file_line_fields(name, size, modified);
    crate::text::lemma_parse_nat_str(size);
    crate::text::lemma_parse_int_str(modified);
    let pre = name + seq![':'] + nat_str(size as nat) + seq![':'] + int_str(modified as int) + seq![':'];
    let l = file_line(name, size, modified, url);
    assert(l =~= pre + url);
    assert(l.skip(pre.len() as int) =~= url);
    assert(l.take(pre.len() as int) =~= pre);
}

/// A well-formed directory line is read back as a directory of that name.
pub proof fn lemma_dir_line(name: Seq<char>)
    requires
        wf_dir_name(name),
    ensures
        !contains_url_spec(name + seq![':']),
        ends_with(name + seq![':'], seq![':']),
        trim_end_char(name + seq![':'], ':') == name,
        (name + seq![':']).len() > 0,
        !is_ws((name + seq![':'])[0]),
        !is_ws((name + seq![':']).last()),
        lacks(name + seq![':'], '\n'),
{
    let h = name + seq![':'];
    assert forall|p: Seq<char>, j: int| (p == "http://"@ || p == "https://"@) implies !occurs_at(h, p, j) by {
        lemma_marker(p);
        if occurs_at(h, p, j) {
            if j + p.len() <= name.len() {
                assert(name.subrange(j, j + p.len()) =~= h.subrange(j, j + p.len()));
                assert(occurs_at(name, p, j));
            } else {
                let k = name.len() - j;
                assert(h.subrange(j, j + p.len())[k] == h[name.len() as int]);
                assert(p[k] == ':');
            }
        }
    }
    assert(h.subrange(h.len() - 1, h.len() as int) =~= seq![':']);
    assert(h.drop_last() =~= name);
    assert(h.last() == ':');
    assert(trim_end_char(name, ':') == name);
    assert(trim_end_char(h, ':') == trim_end_char(h.drop_last(), ':'));
    if name.len() > 0 {
        assert(h[0] == name[0]);
    }
    assert forall|i: int| 0 <= i < h.len() implies h[i] != '\n' by {
        if i < name.len() {
            assert(h[i] == name[i]);
        }
    }
}

/// A line that the text of a well-formed tree can hold.
pub open spec fn line_ok(l: Seq<char>) -> bool {
    &&& l.len() > 0
    &&& lacks(l, '\n')
    &&& !is_ws(l.last())
    &&& trim(l).len() > 0
}

pub proof fn lemma_spaces_line(k: nat, s: Seq<char>)
    requires
        s.len() > 0,
        !is_ws(s[0]),
        !is_ws(s.last()),
        lacks(s, '\n'),
    ensures
        line_ok(spaces(k) + s),
        trim(spaces(k) + s) == s,
        lead_spaces(spaces(k) + s) == k,
{
    lemma_trim_line(k, s);
    lemma_lead_spaces(k, s);
    crate::text::lemma_repeat_space(k);
    let l = spaces(k) + s;
    assert(l.last() == s.last());
    assert forall|i: int| 0 <= i < l.len() implies l[i] != '\n' by {
        if i >= k {
            assert(l[i] == s[i - k]);
        }
    }
}

pub proof fn lemma_items_lines_ok(items: Seq<Item>, indent: nat)
    requires
        wf_items(items),
    ensures
        forall|t: int| 0 <= t < items_lines(items, indent).len() ==> line_ok(#[trigger] items_lines(items, indent)[t]),
    decreases items,
{
    if items.len() > 0 {
        assert(wf_item(items[items.len() - 1]));
        assert(wf_items(items.drop_last())) by {
            assert forall|i: int| 0 <= i < items.drop_last().len() implies wf_item(#[trigger] items.drop_last()[i]) by {
                assert(items.drop_last()[i] == items[i]);
            }
        }
        lemma_items_lines_ok(items.drop_last(), indent);
        lemma_item_lines_ok(items.last(), indent);
        let a = items_lines(items.drop_last(), indent);
        let b = item_lines(items.last(), indent);
        assert forall|t: int| 0 <= t < (a + b).len() implies line_ok(#[trigger] (a + b)[t]) by {
            if t < a.len() {
                assert((a + b)[t] == a[t]);
            } else {
                assert((a + b)[t] == b[t - a.len()]);
            }
        }
    }
}

pub proof fn lemma_item_lines_ok(it: Item, indent: nat)
    requires
        wf_item(it),
    ensures
        forall|t: int| 0 <= t < item_lines(it, indent).len() ==> line_ok(#[trigger] item_lines(it, indent)[t]),
        item_lines(it, indent).len() >= 1,
    decreases it,
{
    match it {
        Item::Dir { name, children } => {
            lemma_dir_line(name);
            lemma_spaces_line(indent, name + seq![':']);
            assert(spaces(indent) + name + seq![':'] =~= spaces(indent) + (name + seq![':']));
            assert(wf_items(children));
            lemma_items_lines_ok(children, indent + 2);
            let a = seq![spaces(indent) + name + seq![':']];
            let b = items_lines(children, indent + 2);
            assert forall|t: int| 0 <= t < (a + b).len() implies line_ok(#[trigger] (a + b)[t]) by {
                if t < a.len() {
                    assert((a + b)[t] == a[t]);
                } else {
                    assert((a + b)[t] == b[t - a.len()]);
                }
            }
        },
        Item::File { name, size, modified, url } => {
            lemma_file_line_parse(name, size, modified, url);
            lemma_spaces_line(indent, file_line(name, size, modified, url));
        },
    }
}

/// Lines joined with line ends and read again.
pub proof fn lemma_lines_of_joined(ls: Seq<Seq<char>>)
    requires
        ls.len() > 0,
        forall|t: int| 0 <= t < ls.len() ==> line_ok(#[trigger] ls[t]),
    ensures
        trim_end(join_lines(ls)) == join_lines(ls).drop_last(),
        lines_spec(join_lines(ls).drop_last()) == ls,
    decreases ls.len(),
{
    let j = join_lines(ls);
    assert(j.last() == '\n');
    assert(line_ok(ls.last()));
    assert(j.drop_last() =~= join_lines(ls.drop_last()) + ls.last());
    assert(j.drop_last().last() == ls.last().last());
    assert(trim_end(j.drop_last()) == j.drop_last());
    let l0 = ls[0];
    assert(line_ok(l0));
    lemma_join_lines_add(seq![l0], ls.drop_first());
    assert(seq![l0] + ls.drop_first() =~= ls);
    assert(seq![l0].drop_last() =~= Seq::<Seq<char>>::empty());
    assert(join_lines(Seq::<Seq<char>>::empty()) == Seq::<char>::empty());
    assert(seq![l0].last() == l0);
    assert(join_lines(seq![l0]) =~= l0 + seq!['\n']);
    if ls.len() == 1 {
        assert(ls.drop_first() =~= Seq::<Seq<char>>::empty());
        assert(j.drop_last() =~= l0);
        crate::text::lemma_find_from(l0, seq!['\n'], 0);
        assert forall|k: int| 0 <= k implies !occurs_at(l0, seq!['\n'], k) by {
            if occurs_at(l0, seq!['\n'], k) {
                assert(l0.subrange(k, k + 1)[0] == l0[k]);
            }
        }
        crate::text::lemma_find_none(l0, seq!['\n']);
        assert(lines_spec(l0) == seq![l0]);
        assert(seq![l0] =~= ls);
    } else {
        let rest = ls.drop_first();
        assert forall|t: int| 0 <= t < rest.len() implies line_ok(#[trigger] rest[t]) by {
            assert(rest[t] == ls[t + 1]);
        }
        lemma_lines_of_joined(rest);
        let jr = join_lines(rest);
        assert(j =~= l0 + seq!['\n'] + jr);
        assert(jr.len() > 0) by {
            assert(jr.last() == '\n');
        }
        let d = j.drop_last();
        assert(d =~= l0 + seq!['\n'] + jr.drop_last());
        assert(occurs_at(d, seq!['\n'], l0.len() as int)) by {
            assert(d.subrange(l0.len() as int, l0.len() as int + 1) =~= seq!['\n']);
        }
        assert forall|k: int| 0 <= k < l0.len() implies !occurs_at(d, seq!['\n'], k) by {
            assert(d.subrange(k, k + 1)[0] == l0[k]);
        }
        crate::text::lemma_find_first_at(d, seq!['\n'], l0.len() as int);
        assert(d.take(l0.len() as int) =~= l0);
        assert(d.skip(l0.len() as int + 1) =~= jr.drop_last());
        assert(strip_cr(l0) == l0);
        assert(lines_spec(d) == seq![l0] + rest);
        assert(seq![l0] + rest =~= ls);
    }
}

/// Lines that hold more than whitespace are all kept.
pub proof fn lemma_nonblank_all(ls: Seq<Seq<char>>)
    requires
        forall|t: int| 0 <= t < ls.len() ==> line_ok(#[trigger] ls[t]),
    ensures
        nonblank(ls) == ls,
    decreases ls.len(),
{
    if ls.len() > 0 {
        assert forall|t: int| 0 <= t < ls.drop_last().len() implies line_ok(#[trigger] ls.drop_last()[t]) by {
            assert(ls.drop_last()[t] == ls[t]);
        }
        lemma_nonblank_all(ls.drop_last());
        assert(line_ok(ls[ls.len() - 1]));
        assert(ls.drop_last().push(ls.last()) =~= ls);
    }
}

/// Reading the lines of well-formed items at their level gives the items,
/// and stops right after their lines.
pub proof fn lemma_parse_items(lines: Seq<Seq<char>>, index: nat, lv: nat, items: Seq<Item>)
    requires
        wf_items(items),
        index + items_lines(items, 2 * lv).len() <= lines.len(),
        forall|t: int| 0 <= t < items_lines(items, 2 * lv).len() ==> lines[index + t] == #[trigger] items_lines(
            items,
            2 * lv,
        )[t],
        index + items_lines(items, 2 * lv).len() == lines.len() || lead_spaces(
            lines[index + items_lines(items, 2 * lv).len() as int],
        ) / 2 < lv,
    ensures
        parse_nodes_spec(lines, index, lv) == (items, index + items_lines(items, 2 * lv).len()),
    decreases items,
{
    let il = items_lines(items, 2 * lv);
    if items.len() == 0 {
        assert(il.len() == 0);
    } else {
        lemma_items_lines_front(items, 2 * lv);
        let it = items[0];
        let rest = items.drop_first();
        assert(wf_item(it));
        assert(wf_items(rest)) by {
            assert forall|i: int| 0 <= i < rest.len() implies wf_item(#[trigger] rest[i]) by {
                assert(rest[i] == items[i + 1]);
            }
        }
        let fl = item_lines(it, 2 * lv);
        let rl = items_lines(rest, 2 * lv);
        assert(il == fl + rl);
        assert(lines[index as int] == fl[0]) by {
            assert(il[0] == fl[0]);
        }
        let after = index + fl.len();
        // The lines of the other items follow those of the first.
        assert forall|t: int| 0 <= t < rl.len() implies lines[after + t] == #[trigger] rl[t] by {
            assert(il[fl.len() + t] == rl[t]);
        }
        assert(after + rl.len() == index + il.len());
        match it {
            Item::Dir { name, children } => {
                lemma_dir_line(name);
                lemma_spaces_line(2 * lv, name + seq![':']);
                assert(spaces(2 * lv) + name + seq![':'] =~= spaces(2 * lv) + (name + seq![':']));
                assert((2 * lv) / 2 == lv);
                let cl = items_lines(children, 2 * (lv + 1));
                assert(2 * lv + 2 == 2 * (lv + 1));
                assert(fl == seq![spaces(2 * lv) + name + seq![':']] + cl);
                assert(wf_items(children));
                assert forall|t: int| 0 <= t < cl.len() implies lines[index + 1 + t] == #[trigger] cl[t] by {
                    assert(fl[1 + t] == cl[t]);
                    assert(il[1 + t] == fl[1 + t]);
                }
                // What follows the children is shallower.
                if rl.len() > 0 {
                    lemma_items_lines_front(rest, 2 * lv);
                    let r0 = rest[0];
                    assert(wf_item(r0));
                    let h = item_lines(r0, 2 * lv)[0];
                    assert(rl[0] == h);
                    match r0 {
                        Item::Dir { name: n2, .. } => {
                            lemma_dir_line(n2);
                            lemma_spaces_line(2 * lv, n2 + seq![':']);
                            assert(spaces(2 * lv) + n2 + seq![':'] =~= spaces(2 * lv) + (n2 + seq![':']));
                        },
                        Item::File { name: n2, size, modified, url } => {
                            lemma_file_line_parse(n2, size, modified, url);
                            lemma_spaces_line(2 * lv, file_line(n2, size, modified, url));
                        },
                    }
                    assert(lines[after as int] == rl[0]);
                }
                assert(index + 1 + cl.len() == after);
                assert(decreases_to!(items => items[0]));
                lemma_parse_items(lines, index + 1, lv + 1, children);
                lemma_parse_items(lines, after, lv, rest);
                assert(seq![Item::Dir { name: name, children: children }] + rest =~= items);
            },
            Item::File { name, size, modified, url } => {
                lemma_file_line_parse(name, size, modified, url);
                lemma_spaces_line(2 * lv, file_line(name, size, modified, url));
                assert((2 * lv) / 2 == lv);
                assert(fl.len() == 1);
                lemma_parse_items(lines, after, lv, rest);
                assert(seq![it] + rest =~= items);
            },
        }
    }
}

/// Law: the text of a well-formed tree reads back as the same tree.
pub proof fn law_structure_roundtrip(items: Seq<Item>)
    requires
        wf_items(items),
    ensures
        parse_spec(structure_spec(items)) == items,
{
    let ls = items_lines(items, 0);
    lemma_items_str_lines(items, 0);
    lemma_items_lines_ok(items, 0);
    if items.len() == 0 {
        assert(items_str(items, 0) == Seq::<char>::empty());
        assert(lines_spec(Seq::<char>::empty()) == Seq::<Seq<char>>::empty());
        assert(nonblank(Seq::<Seq<char>>::empty()) == Seq::<Seq<char>>::empty());
    } else {
        lemma_items_lines_front(items, 0);
        lemma_item_lines_ok(items[0], 0);
        assert(ls.len() > 0);
        lemma_lines_of_joined(ls);
        lemma_nonblank_all(ls);
        assert(2 * 0nat == 0);
        lemma_parse_items(ls, 0, 0, items);
    }
}

// ---------------------------------------------------------------------------
// Law: a file placed at a path is found there.
// ---------------------------------------------------------------------------

/// The file called `name` below the directories `path`: the first file of
/// that name in the first directory of each name.
pub open spec fn lookup(items: Seq<Item>, path: Seq<Seq<char>>, name: Seq<char>) -> Option<Item>
    decreases path.len(),
{
    if path.len() == 0 {
        match file_index_from(items, name, 0) {
            Some(i) => Some(items[i]),
            None => None,
        }
    } else {
        match dir_index_from(items, path[0], 0) {
            Some(i) => lookup(dir_children(items[i]), path.drop_first(), name),
            None => None,
        }
    }
}

pub proof fn lemma_file_index_first(items: Seq<Item>, name: Seq<char>, k: int)
    requires
        0 <= k < items.len(),
        is_file_named(items[k], name),
        forall|j: int| 0 <= j < k ==> !is_file_named(#[trigger] items[j], name),
    ensures
        file_index_from(items, name, 0) == Some(k),
{
    lemma_file_index_from_at(items, name, 0, k);
}

pub proof fn lemma_file_index_from_at(items: Seq<Item>, name: Seq<char>, i: int, k: int)
    requires
        0 <= i <= k < items.len(),
        is_file_named(items[k], name),
        forall|j: int| i <= j < k ==> !is_file_named(#[trigger] items[j], name),
    ensures
        file_index_from(items, name, i) == Some(k),
    decreases k - i,
{
    if i < k {
        lemma_file_index_from_at(items, name, i + 1, k);
    }
}

pub proof fn lemma_dir_index_from_at(items: Seq<Item>, name: Seq<char>, i: int, k: int)
    requires
        0 <= i <= k < items.len(),
        is_dir_named(items[k], name),
        forall|j: int| i <= j < k ==> !is_dir_named(#[trigger] items[j], name),
    ensures
        dir_index_from(items, name, i) == Some(k),
    decreases k - i,
{
    if i < k {
        lemma_dir_index_from_at(items, name, i + 1, k);
    }
}

/// Law: after a file is placed below a path, looking it up there by its
/// name gives that file.
pub proof fn law_upsert_then_lookup(items: Seq<Item>, path: Seq<Seq<char>>, f: FileEntry)
    ensures
        lookup(upsert_path_items(items, path, file_item(f)), path, f.name@) == Some(file_item(f)),
    decreases path.len(),
{
    let fi = file_item(f);
    let name = f.name@;
    if path.len() == 0 {
        lemma_file_index_from(items, name, 0);
        let u = upsert_file_items(items, fi);
        match file_index_from(items, name, 0) {
            Some(i) => {
                assert(u == items.update(i, fi));
                assert forall|j: int| 0 <= j < i implies !is_file_named(#[trigger] u[j], name) by {
                    assert(u[j] == items[j]);
                }
                lemma_file_index_first(u, name, i);
            },
            None => {
                assert(u == items.push(fi));
                assert forall|j: int| 0 <= j < items.len() implies !is_file_named(#[trigger] u[j], name) by {
                    assert(u[j] == items[j]);
                }
                lemma_file_index_first(u, name, items.len() as int);
            },
        }
    } else {
        let p0 = path[0];
        lemma_dir_index_from(items, p0, 0);
        let u = upsert_path_items(items, path, fi);
        law_upsert_then_lookup(
            match dir_index_from(items, p0, 0) {
                Some(i) => dir_children(items[i]),
                None => seq![],
            },
            path.drop_first(),
            f,
        );
        match dir_index_from(items, p0, 0) {
            Some(i) => {
                assert forall|j: int| 0 <= j < i implies !is_dir_named(#[trigger] u[j], p0) by {
                    assert(u[j] == items[j]);
                }
                lemma_dir_index_from_at(u, p0, 0, i);
            },
            None => {
                assert forall|j: int| 0 <= j < items.len() implies !is_dir_named(#[trigger] u[j], p0) by {
                    assert(u[j] == items[j]);
                }
                lemma_dir_index_from_at(u, p0, 0, items.len() as int);
            },
        }
    }
}

/// Two item lists that agree, at every index of the first, on which items
/// are files called `name`, and whose further items are no such files, have
/// the same first file called `name`.
proof fn lemma_file_index_same(a: Seq<Item>, b: Seq<Item>, name: Seq<char>, i: int)
    requires
        0 <= i,
        a.len() <= b.len(),
        forall|j: int| 0 <= j < a.len() ==> is_file_named(#[trigger] a[j], name) == is_file_named(b[j], name),
        forall|j: int| a.len() <= j < b.len() ==> !is_file_named(#[trigger] b[j], name),
    ensures
        file_index_from(a, name, i) == file_index_from(b, name, i),
    decreases b.len() - i,
{
    if i < b.len() {
        lemma_file_index_same(a, b, name, i + 1);
    }
}

/// The same for directories.
proof fn lemma_dir_index_same(a: Seq<Item>, b: Seq<Item>, name: Seq<char>, i: int)
    requires
        0 <= i,
        a.len() <= b.len(),
        forall|j: int| 0 <= j < a.len() ==> is_dir_named(#[trigger] a[j], name) == is_dir_named(b[j], name),
        forall|j: int| a.len() <= j < b.len() ==> !is_dir_named(#[trigger] b[j], name),
    ensures
        dir_index_from(a, name, i) == dir_index_from(b, name, i),
    decreases b.len() - i,
{
    if i < b.len() {
        lemma_dir_index_same(a, b, name, i + 1);
    }
}

/// Nothing is found in an empty list.
proof fn lemma_lookup_empty(path: Seq<Seq<char>>, name: Seq<char>)
    ensures
        lookup(seq![], path, name) is None,
{
}

/// Law: placing a file below a path leaves every other file of that
/// directory as it was: looking up another name there gives what it gave
/// before.
pub proof fn law_upsert_keeps_others(items: Seq<Item>, path: Seq<Seq<char>>, f: FileEntry, other: Seq<char>)
    requires
        other != f.name@,
    ensures
        lookup(upsert_path_items(items, path, file_item(f)), path, other) == lookup(items, path, other),
    decreases path.len(),
{
    let fi = file_item(f);
    let u = upsert_path_items(items, path, fi);
    if path.len() == 0 {
        lemma_file_index_from(items, f.name@, 0);
        match file_index_from(items, f.name@, 0) {
            Some(i) => {
                assert(u == items.update(i, fi));
                assert forall|j: int| 0 <= j < items.len() implies is_file_named(#[trigger] items[j], other)
                    == is_file_named(u[j], other) by {
                    if j == i {
                        assert(!is_file_named(items[j], other));
                    }
                }
                lemma_file_index_same(items, u, other, 0);
                lemma_file_index_from(items, other, 0);
                match file_index_from(items, other, 0) {
                    Some(k) => {
                        assert(k != i);
                        assert(u[k] == items[k]);
                    },
                    None => {},
                }
            },
            None => {
                assert(u == items.push(fi));
                assert forall|j: int| 0 <= j < items.len() implies is_file_named(#[trigger] items[j], other)
                    == is_file_named(u[j], other) by {
                    assert(u[j] == items[j]);
                }
                assert forall|j: int| items.len() <= j < u.len() implies !is_file_named(#[trigger] u[j], other) by {
                    assert(u[j] == fi);
                }
                lemma_file_index_same(items, u, other, 0);
                lemma_file_index_from(items, other, 0);
                match file_index_from(items, other, 0) {
                    Some(k) => {
                        assert(u[k] == items[k]);
                    },
                    None => {},
                }
            },
        }
    } else {
        let p0 = path[0];
        let rest = path.drop_first();
        lemma_dir_index_from(items, p0, 0);
        match dir_index_from(items, p0, 0) {
            Some(i) => {
                let nd = Item::Dir { name: p0, children: upsert_path_items(dir_children(items[i]), rest, fi) };
                assert(u == items.update(i, nd));
                assert forall|j: int| 0 <= j < items.len() implies is_dir_named(#[trigger] items[j], p0)
                    == is_dir_named(u[j], p0) by {
                    if j != i {
                        assert(u[j] == items[j]);
                    }
                }
                lemma_dir_index_same(items, u, p0, 0);
                law_upsert_keeps_others(dir_children(items[i]), rest, f, other);
            },
            None => {
                let nd = Item::Dir { name: p0, children: upsert_path_items(seq![], rest, fi) };
                assert(u == items.push(nd));
                assert forall|j: int| 0 <= j < items.len() implies is_dir_named(#[trigger] items[j], p0)
                    == is_dir_named(u[j], p0) by {
                    assert(u[j] == items[j]);
                }
                lemma_dir_index_from_at(u, p0, 0, items.len() as int);
                law_upsert_keeps_others(seq![], rest, f, other);
                lemma_lookup_empty(rest, other);
            },
        }
    }
}

/// Trimming trailing `c` from `a + b`, where `a` does not end with `c`,
/// trims only `b`.
proof fn lemma_trim_end_char_concat(a: Seq<char>, b: Seq<char>, c: char)
    requires
        a.len() > 0,
        a.last() != c,
    ensures
        trim_end_char(a + b, c) == a + trim_end_char(b, c),
    decreases b.len(),
{
    if b.len() > 0 && b.last() == c {
        assert((a + b).drop_last() =~= a + b.drop_last());
        lemma_trim_end_char_concat(a, b.drop_last(), c);
    } else if b.len() == 0 {
        assert(a + b =~= a);
    }
}

/// Trimming trailing `c` keeps a prefix.
proof fn lemma_trim_end_char_prefix(b: Seq<char>, c: char)
    ensures
        trim_end_char(b, c).len() <= b.len(),
        trim_end_char(b, c) == b.take(trim_end_char(b, c).len() as int),
    decreases b.len(),
{
    if b.len() > 0 && b.last() == c {
        lemma_trim_end_char_prefix(b.drop_last(), c);
        assert(b.drop_last().take(trim_end_char(b, c).len() as int) =~= b.take(trim_end_char(b, c).len() as int));
    } else {
        assert(b.take(b.len() as int) =~= b);
    }
}

/// Law: a file line names its file by its first `:`-separated field, however
/// many fields follow before the link: `name:link`, `name:size:link` and
/// `name:size:modified:link` all read back with that name and that link
/// (for a name the format can carry, fields without `h` that do not begin
/// with `/`, and a link the format can carry).
pub proof fn law_file_line_name(name: Seq<char>, mid: Seq<char>, url: Seq<char>)
    requires
        wf_name(name),
        wf_url(url),
        lacks(mid, 'h'),
        mid.len() == 0 || mid[0] != '/',
    ensures
        parse_file_line_spec(name + seq![':'] + mid + url) matches Item::File { name: n, url: u, .. } && n == name
            && u == url,
{
    let pre = name + seq![':'] + mid;
    let l = pre + url;
    let pl = pre.len() as int;
    let nl = name.len() as int;
    assert(l =~= name + seq![':'] + mid + url);
    let hp = "http://"@;
    let hs = "https://"@;
    lemma_marker(hp);
    lemma_marker(hs);
    reveal_strlit("http://");
    reveal_strlit("https://");
    assert(url[0] == 'h') by {
        if starts_with(url, hp) {
            assert(url.subrange(0, hp.len() as int)[0] == url[0]);
        } else {
            assert(url.subrange(0, hs.len() as int)[0] == url[0]);
        }
    }
    // No marker begins before the link.
    assert forall|p: Seq<char>, j: int| (p == hp || p == hs) && 0 <= j < pl implies !occurs_at(l, p, j) by {
        lemma_marker(p);
        if occurs_at(l, p, j) {
            assert(l.subrange(j, j + p.len())[0] == l[j]);
            assert(l[j] == 'h');
            if j == nl {
                assert(l[j] == ':');
            } else if j > nl {
                assert(l[j] == mid[j - nl - 1]);
            } else if j + p.len() <= nl {
                assert(name.subrange(j, j + p.len()) =~= l.subrange(j, j + p.len()));
                assert(occurs_at(name, p, j));
                assert(contains(name, p));
            } else {
                let k = nl - j;
                assert(l.subrange(j, j + p.len())[k] == l[nl]);
                assert(p[k] == ':');
                assert(k == colon_index(p));
                assert(l.subrange(j, j + p.len())[k + 1] == l[nl + 1]);
                assert(p[k + 1] == '/');
                if mid.len() > 0 {
                    assert(l[nl + 1] == mid[0]);
                } else {
                    assert(l[nl + 1] == url[0]);
                }
            }
        }
    }
    // The marker of the link.
    if starts_with(url, hp) {
        assert(l.subrange(pl, pl + hp.len()) =~= url.subrange(0, hp.len() as int));
        assert(occurs_at(l, hp, pl));
        crate::text::lemma_find_first_at(l, hp, pl);
    } else {
        assert(starts_with(url, hs) && !contains(url, hp));
        assert forall|j: int| 0 <= j implies !occurs_at(l, hp, j) by {
            if j >= pl && occurs_at(l, hp, j) {
                assert(url.subrange(j - pl, j - pl + hp.len()) =~= l.subrange(j, j + hp.len()));
                assert(occurs_at(url, hp, j - pl));
            }
        }
        crate::text::lemma_find_none(l, hp);
        assert(l.subrange(pl, pl + hs.len()) =~= url.subrange(0, hs.len() as int));
        assert(occurs_at(l, hs, pl));
        crate::text::lemma_find_first_at(l, hs, pl);
    }
    assert(url_index(l) == pl);
    assert(l.skip(pl) =~= url);
    assert(l.take(pl) =~= pre);
    // The fields before the link: the name comes first.
    let tail = seq![':'] + mid;
    assert(pre =~= name + tail);
    assert(name.last() != ':') by {
        assert(name[name.len() - 1] == name.last());
    }
    lemma_trim_end_char_concat(name, tail, ':');
    let t = trim_end_char(tail, ':');
    let info = trim_end_char(pre, ':');
    assert(info == name + t);
    if t.len() == 0 {
        assert(info =~= name);
        crate::text::lemma_split_lacks(name, ':');
    } else {
        lemma_trim_end_char_prefix(tail, ':');
        assert(t[0] == tail[0]);
        assert(info =~= name + seq![':'] + t.drop_first());
        crate::text::lemma_split_cons(name, ':', t.drop_first());
    }
    assert(split_char(info, ':')[0] == name);
}

} // verus!
