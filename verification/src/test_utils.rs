//! A file system that lives in memory, for trying out a walk.

use vstd::prelude::*;
use vstd::string::StringExecFns;
use crate::filesystem::FileSystem;
use crate::laws::{
    lemma_below_ignored_is_left_alone, lies_in, paths_grow, paths_written_alike, subject,
};
use crate::models::{views_of, Failure, FileInfo, FileInfoView, SimpleFileKind};
use crate::scan::{ScanView, WalkAnswer};
use crate::text::{is_piece, lemma_piece_behind, path_parts, pieces, split_path, texts, Cut};
use crate::tree::{walk_dir, walk_events, Tree, WalkConfig};
use crate::walker::{
    behaves_like, lemma_walk_out_reports_tree, reported, walked_out, WalkNotifier,
};

verus! {

/// An entry of a [`MockFS`]: a name, and the entries below it. An entry with
/// nothing below it counts as a file, any other as a directory.
pub struct MockFSNode {
    pub name: String,
    pub children: Vec<MockFSNode>,
}

/// A tree of entries, each found by its path from the root.
pub struct MockFS {
    pub root: MockFSNode,
}

/// The first of `children` that is called `name`.
pub open spec fn child_named(children: Seq<MockFSNode>, name: Seq<char>) -> Option<MockFSNode>
    decreases children.len(),
{
    if children.len() == 0 {
        None
    } else if children[0].name@ == name {
        Some(children[0])
    } else {
        child_named(children.skip(1), name)
    }
}

/// The entry that is reached from `node` by going down, part by part.
pub open spec fn descend(node: MockFSNode, parts: Seq<Seq<char>>) -> Option<MockFSNode>
    decreases parts.len(),
{
    if parts.len() == 0 {
        Some(node)
    } else {
        match child_named(node.children@, parts[0]) {
            Some(child) => descend(child, parts.skip(1)),
            None => None,
        }
    }
}

/// The path of the entry called `name` in the directory at `path`.
pub open spec fn joined(path: Seq<char>, name: Seq<char>) -> Seq<char> {
    if path.len() == 0 {
        name
    } else if path.last() == '/' {
        path + name
    } else {
        path + seq!['/'] + name
    }
}

/// What a listing of the directory at `path` says of one of its entries.
pub open spec fn entry_of(path: Seq<char>, child: MockFSNode) -> FileInfoView {
    FileInfoView {
        path: joined(path, child.name@),
        name: child.name@,
        kind: if child.children@.len() == 0 {
            SimpleFileKind::File
        } else {
            SimpleFileKind::Directory
        },
    }
}

/// What a listing of the directory at `path` says of its entries.
pub open spec fn entries_of(path: Seq<char>, children: Seq<MockFSNode>) -> Seq<FileInfoView> {
    children.map_values(|child: MockFSNode| entry_of(path, child))
}

impl MockFSNode {
    /// An entry with nothing below it.
    pub fn file(name: &str) -> (node: Self)
        ensures
            node.name@ == name@,
            node.children@.len() == 0,
    {
        MockFSNode { name: String::from_str(name), children: Vec::new() }
    }

    /// An entry with `children` below it.
    pub fn dir(name: &str, children: Vec<MockFSNode>) -> (node: Self)
        ensures
            node.name@ == name@,
            node.children == children,
    {
        MockFSNode { name: String::from_str(name), children }
    }
}

/// The first of `children` that is called `name`.
fn find_child<'a>(children: &'a Vec<MockFSNode>, name: &String) -> (found: Option<&'a MockFSNode>)
    ensures
        match found {
            Some(child) => child_named(children@, name@) == Some(*child),
            None => child_named(children@, name@) is None,
        },
{
    let mut j: usize = 0;
    proof {
        assert(children@.skip(0) =~= children@);
    }
    while j < children.len()
        invariant
            j <= children.len(),
            child_named(children@, name@) == child_named(children@.skip(j as int), name@),
        decreases children.len() - j,
    {
        proof {
            assert(children@.skip(j as int).skip(1) =~= children@.skip(j + 1));
            assert(children@.skip(j as int)[0] == children@[j as int]);
        }
        if children[j].name == *name {
            return Some(&children[j]);
        }
        j += 1;
    }
    None
}

/// The path of the entry called `name` in the directory at `path`.
fn join(path: &str, name: &str) -> (whole: String)
    ensures
        whole@ == joined(path@, name@),
{
    let n = path.unicode_len();
    if n == 0 {
        String::from_str(name)
    } else if path.get_char(n - 1) == '/' {
        String::from_str(path).concat(name)
    } else {
        proof {
            reveal_strlit("/");
            assert("/"@ =~= seq!['/']);
        }
        String::from_str(path).concat("/").concat(name)
    }
}

impl MockFS {
    pub fn new(root: MockFSNode) -> (fs: Self)
        ensures
            fs.root == root,
    {
        Self { root }
    }

    /// The entry at `path`: the one that is reached from the root by going
    /// down the parts of the path. The name of the root itself is not looked
    /// at.
    pub open spec fn node_at(&self, path: Seq<char>) -> Option<MockFSNode> {
        descend(self.root, path_parts(path))
    }

    fn get_node(&self, path: &str) -> (node: Option<&MockFSNode>)
        ensures
            match node {
                Some(found) => self.node_at(path@) == Some(*found),
                None => self.node_at(path@) is None,
            },
    {
        let parts = split_path(path);
        let ghost all = texts(parts@);
        let mut current = &self.root;
        let mut k: usize = 0;
        proof {
            assert(all.skip(0) =~= all);
        }
        while k < parts.len()
            invariant
                k <= parts.len(),
                all == texts(parts@),
                all == path_parts(path@),
                self.node_at(path@) == descend(*current, all.skip(k as int)),
            decreases parts.len() - k,
        {
            proof {
                assert(all.skip(k as int).skip(1) =~= all.skip(k + 1));
                assert(all.skip(k as int)[0] == parts@[k as int]@);
            }
            match find_child(&current.children, &parts[k]) {
                Some(child) => {
                    current = child;
                },
                None => {
                    return None;
                },
            }
            k += 1;
        }
        Some(current)
    }
}

impl FileSystem for MockFS {
    /// Always `/home/user`.
    fn current_directory(&self) -> (result: Result<FileInfo, Failure>)
        ensures
            result is Ok,
            result->Ok_0@ == (FileInfoView {
                path: "/home/user"@,
                name: "user"@,
                kind: SimpleFileKind::Directory,
            }),
    {
        Ok(
            FileInfo::new(
                String::from_str("/home/user"),
                String::from_str("user"),
                SimpleFileKind::Directory,
            ),
        )
    }

    /// The entries below the entry at the path of `file`, in their order;
    /// fails where there is no such entry.
    fn list_files(&self, file: &FileInfo) -> (result: Result<Vec<FileInfo>, Failure>)
        ensures
            match result {
                Ok(children) => self.node_at(file@.path) is Some && views_of(children@)
                    == entries_of(file@.path, self.node_at(file@.path)->Some_0.children@),
                Err(failure) => self.node_at(file@.path) is None && failure@
                    == "Cannot find node"@,
            },
    {
        let path = file.path.as_str();
        let node = match self.get_node(path) {
            Some(node) => node,
            None => {
                return Err(Failure::new(String::from_str("Cannot find node")));
            },
        };
        let ghost all = entries_of(path@, node.children@);
        let mut files: Vec<FileInfo> = Vec::new();
        let mut i: usize = 0;
        proof {
            assert(views_of(files@) =~= all.take(0));
        }
        while i < node.children.len()
            invariant
                i <= node.children.len(),
                all == entries_of(path@, node.children@),
                views_of(files@) == all.take(i as int),
            decreases node.children.len() - i,
        {
            let child = &node.children[i];
            let kind = if child.children.len() == 0 {
                SimpleFileKind::File
            } else {
                SimpleFileKind::Directory
            };
            let ghost listed = views_of(files@);
            files.push(FileInfo::new(join(path, child.name.as_str()), child.name.clone(), kind));
            proof {
                assert(views_of(files@) =~= listed.push(entry_of(path@, node.children@[i as int])));
                assert(views_of(files@) =~= all.take(i + 1));
            }
            i += 1;
        }
        proof {
            assert(all.take(i as int) =~= all);
        }
        Ok(files)
    }

    /// Always 42.
    fn file_size(&self, _file: &FileInfo) -> (result: Result<u64, Failure>)
        ensures
            result == Ok::<u64, Failure>(42),
    {
        Ok(42)
    }
}

/// Whether every entry below `node` has a name that can stand in a path: one
/// that is not empty and holds no slash.
pub open spec fn well_named(node: MockFSNode) -> bool
    decreases node,
{
    forall|i: int|
        0 <= i < node.children@.len() ==> is_piece(
            Cut::Slashes,
            (#[trigger] node.children@[i]).name@,
        ) && well_named(node.children@[i])
}

/// How deep the tree is nested at and below `node`.
pub open spec fn height(node: MockFSNode) -> nat
    decreases node, 1nat,
{
    1 + tallest(node.children@)
}

/// The height of the highest of `nodes`.
pub open spec fn tallest(nodes: Seq<MockFSNode>) -> nat
    decreases nodes, 0nat,
{
    if nodes.len() == 0 {
        0
    } else {
        let rest = tallest(nodes.drop_last());
        if height(nodes.last()) > rest {
            height(nodes.last())
        } else {
            rest
        }
    }
}

impl MockFS {
    /// The file system as a tree: what it lists at a path, the size that it
    /// gives, and how deep it is nested there.
    pub open spec fn tree(&self) -> Tree {
        Tree {
            listing: |dir: FileInfoView|
                match self.node_at(dir.path) {
                    Some(node) => Ok(entries_of(dir.path, node.children@)),
                    None => Err("Cannot find node"@),
                },
            size: |file: FileInfoView| Some(42u64),
            depth: |dir: FileInfoView|
                match self.node_at(dir.path) {
                    Some(node) => height(node),
                    None => 0nat,
                },
        }
    }
}

/// No node is higher than the highest.
proof fn lemma_tallest(nodes: Seq<MockFSNode>, i: int)
    requires
        0 <= i < nodes.len(),
    ensures
        height(nodes[i]) <= tallest(nodes),
    decreases nodes.len(),
{
    if i < nodes.len() - 1 {
        lemma_tallest(nodes.drop_last(), i);
    }
}

/// What is found by its name among `children` is one of them, and has that
/// name.
proof fn lemma_child_named(children: Seq<MockFSNode>, name: Seq<char>)
    ensures
        match child_named(children, name) {
            Some(child) => child.name@ == name && exists|i: int|
                0 <= i < children.len() && #[trigger] children[i] == child,
            None => forall|i: int|
                0 <= i < children.len() ==> (#[trigger] children[i]).name@ != name,
        },
    decreases children.len(),
{
    if children.len() > 0 {
        if children[0].name@ == name {
            assert(children[0] == children[0]);
        } else {
            lemma_child_named(children.skip(1), name);
            match child_named(children.skip(1), name) {
                Some(child) => {
                    let i = choose|i: int|
                        0 <= i < children.skip(1).len() && #[trigger] children.skip(1)[i] == child;
                    assert(children[i + 1] == child);
                },
                None => {
                    assert forall|i: int| 0 <= i < children.len() implies (
                    #[trigger] children[i]).name@ != name by {
                        if i > 0 {
                            assert(children.skip(1)[i - 1] == children[i]);
                        }
                    }
                },
            }
        }
    }
}

/// Going down one part more is going down, and then to the child of that
/// name.
proof fn lemma_descend_further(node: MockFSNode, parts: Seq<Seq<char>>, name: Seq<char>)
    ensures
        descend(node, parts.push(name)) == match descend(node, parts) {
            Some(found) => child_named(found.children@, name),
            None => None,
        },
    decreases parts.len(),
{
    let longer = parts.push(name);
    if parts.len() == 0 {
        assert(longer.skip(1) =~= Seq::<Seq<char>>::empty());
        assert(longer[0] == name);
        match child_named(node.children@, name) {
            Some(child) => {
                assert(descend(child, longer.skip(1)) == Some(child));
            },
            None => {},
        }
    } else {
        assert(longer[0] == parts[0]);
        assert(longer.skip(1) =~= parts.skip(1).push(name));
        match child_named(node.children@, parts[0]) {
            Some(child) => {
                lemma_descend_further(child, parts.skip(1), name);
            },
            None => {},
        }
    }
}

/// Whatever is reached from a well-named node is well named.
proof fn lemma_well_named_below(node: MockFSNode, parts: Seq<Seq<char>>)
    requires
        well_named(node),
    ensures
        descend(node, parts) matches Some(found) ==> well_named(found),
    decreases parts.len(),
{
    if parts.len() > 0 {
        lemma_child_named(node.children@, parts[0]);
        match child_named(node.children@, parts[0]) {
            Some(child) => {
                let i = choose|i: int|
                    0 <= i < node.children@.len() && #[trigger] node.children@[i] == child;
                assert(well_named(node.children@[i]));
                lemma_well_named_below(child, parts.skip(1));
            },
            None => {},
        }
    }
}

/// The parts of the path of an entry are the parts of the path of its
/// directory, and its name.
proof fn lemma_parts_joined(path: Seq<char>, name: Seq<char>)
    requires
        is_piece(Cut::Slashes, name),
    ensures
        path_parts(joined(path, name)) == path_parts(path).push(name),
{
    if path.len() == 0 {
        lemma_piece_behind(Cut::Slashes, path, name);
        assert(path + name =~= name);
    } else if path.last() == '/' {
        lemma_piece_behind(Cut::Slashes, path, name);
    } else {
        let cut = path + seq!['/'];
        assert(cut.drop_last() =~= path);
        assert(pieces(Cut::Slashes, cut) == pieces(Cut::Slashes, path));
        lemma_piece_behind(Cut::Slashes, cut, name);
    }
}

/// A mock file system whose entries are well named is a finite tree.
pub proof fn lemma_mock_tree_is_finite(fs: MockFS)
    requires
        well_named(fs.root),
    ensures
        fs.tree().well_founded(),
{
    let tree = fs.tree();
    assert forall|dir: FileInfoView, child: FileInfoView| #[trigger]
        tree.lists(dir, child) implies (tree.depth)(child) < (tree.depth)(dir) by {
        let node = fs.node_at(dir.path)->Some_0;
        let listed = entries_of(dir.path, node.children@);
        let i = choose|i: int| 0 <= i < listed.len() && listed[i] == child;
        let below = node.children@[i];
        lemma_well_named_below(fs.root, path_parts(dir.path));
        assert(well_named(node));
        assert(is_piece(Cut::Slashes, below.name@));
        lemma_parts_joined(dir.path, below.name@);
        lemma_descend_further(fs.root, path_parts(dir.path), below.name@);
        lemma_child_named(node.children@, below.name@);
        let found = child_named(node.children@, below.name@)->Some_0;
        let j = choose|j: int|
            0 <= j < node.children@.len() && #[trigger] node.children@[j] == found;
        lemma_tallest(node.children@, j);
    }
}

/// A mock file system behaves like its tree.
pub proof fn lemma_mock_behaves_like_tree(fs: MockFS)
    ensures
        behaves_like(fs, fs.tree()),
{
}

/// In a mock file system whose entries are well named, the path of an entry
/// has the parts of the path of its directory, and one part more.
pub proof fn lemma_mock_paths_grow(fs: MockFS)
    requires
        well_named(fs.root),
    ensures
        paths_grow(fs.tree()),
{
    let tree = fs.tree();
    assert forall|dir: FileInfoView, child: FileInfoView| #[trigger]
        tree.lists(dir, child) implies path_parts(child.path).len() > 0 && path_parts(
        child.path,
    ).drop_last() == path_parts(dir.path) by {
        let node = fs.node_at(dir.path)->Some_0;
        let listed = entries_of(dir.path, node.children@);
        let i = choose|i: int| 0 <= i < listed.len() && listed[i] == child;
        lemma_well_named_below(fs.root, path_parts(dir.path));
        assert(is_piece(Cut::Slashes, node.children@[i].name@));
        lemma_parts_joined(dir.path, node.children@[i].name@);
        assert(path_parts(dir.path).push(node.children@[i].name@).drop_last() =~= path_parts(
            dir.path,
        ));
    }
}

/// A scan of a mock file system whose entries are well named reports
/// nothing that lies in or below an ignored path, where the paths are
/// written as the ignored paths are and the scan does not itself begin below
/// an ignored path.
pub proof fn lemma_mock_below_ignored_is_left_alone(
    fs: MockFS,
    config: WalkConfig,
    root: FileInfoView,
    i: int,
    ignored: Seq<char>,
) -> (about: FileInfoView)
    requires
        well_named(fs.root),
        paths_written_alike(fs.tree(), config.ignores, root),
        forall|above: Seq<char>| #[trigger]
            config.ignores.contains(above) && lies_in(above, root.path) ==> path_parts(above)
                == path_parts(root.path),
        0 <= i < walk_dir(fs.tree(), config, root).len(),
        config.ignores.contains(ignored),
    ensures
        subject(walk_dir(fs.tree(), config, root)[i]) == Some(about),
        !lies_in(ignored, about.path),
{
    lemma_mock_tree_is_finite(fs);
    lemma_mock_paths_grow(fs);
    lemma_below_ignored_is_left_alone(fs.tree(), config, root, i, ignored)
}

/// A walk over a mock file system whose entries are well named comes to its
/// end, and tells the notifier what a scan of its tree reports, note for
/// note, provided that those are fewer notes than a `usize` can count.
pub proof fn lemma_mock_walk_reports_tree<N: WalkNotifier>(
    fs: MockFS,
    notifier: N,
    scan: ScanView,
    root: FileInfoView,
    after: ScanView,
    given: Seq<WalkAnswer>,
    finished: bool,
)
    requires
        well_named(fs.root),
        walked_out(fs, notifier, scan.start(root), after, given, finished),
        walk_events(fs.tree(), scan.config(), root).len() < usize::MAX,
    ensures
        finished,
        reported(notifier, walk_events(fs.tree(), scan.config(), root)),
{
    lemma_mock_tree_is_finite(fs);
    lemma_mock_behaves_like_tree(fs);
    lemma_walk_out_reports_tree(fs, notifier, fs.tree(), scan, root, after, given, finished);
}

} // verus!
