use vstd::pervasive::arbitrary;
use vstd::prelude::*;

use crate::error::Error;
use crate::scanner::chars_eq;
use crate::text::{chars_of, has_line, push_char, text_has_line};
use crate::utils::push_str;

verus! {

/// The kind of file that a node of the mount tree stands for.
#[derive(Debug, Clone, Copy, PartialEq, Eq, Structural, Hash)]
pub enum NodeFileType {
    RegularFile,
    Directory,
    Symlink,
    Whiteout,
}

/// A node of the mount tree: a file that one or more modules place under a partition.
/// No two children of a node have the same name.
pub struct Node {
    pub name: String,
    pub file_type: NodeFileType,
    pub children: Vec<Node>,
    /// The path of the file in the module that owns this node.
    pub source_path: Option<String>,
    pub replace: bool,
    pub skip: bool,
}

/// What a `Node` says, with its texts as character sequences.
pub struct NodeModel {
    pub name: Seq<char>,
    pub file_type: NodeFileType,
    pub children: Seq<NodeModel>,
    pub source_path: Option<Seq<char>>,
    pub replace: bool,
    pub skip: bool,
}

/// The model of a node, its children included.
pub open spec fn node_model(n: Node) -> NodeModel
    decreases n,
{
    NodeModel {
        name: n.name@,
        file_type: n.file_type,
        children: Seq::new(
            n.children@.len(),
            |i: int|
                {
                    if 0 <= i < n.children@.len() {
                        proof {
                            assert(decreases_to!(n => n.children@[i]));
                        }
                        node_model(n.children@[i])
                    } else {
                        arbitrary()
                    }
                },
        ),
        source_path: match n.source_path {
            Some(p) => Some(p@),
            None => None,
        },
        replace: n.replace,
        skip: n.skip,
    }
}

/// The model of an optional node.
pub open spec fn option_node_model(n: Option<Node>) -> Option<NodeModel> {
    match n {
        Some(n) => Some(node_model(n)),
        None => None,
    }
}

/// What a read of one entry of a module directory found.
pub struct DirEntryInfo {
    /// The entry's file name.
    pub name: String,
    /// The entry's path.
    pub path: String,
    /// The kind of file, from the entry's own metadata (a character device with device
    /// number 0, and anything but a regular file, a directory or a symlink, is a
    /// whiteout); none where the metadata could not be read.
    pub file_type: Option<NodeFileType>,
    /// The value of the entry's `trusted.overlay.opaque` attribute, where it has one.
    pub opaque_xattr: Option<Vec<u8>>,
    /// The entry is a directory that holds a `.replace` file.
    pub has_replace_file: bool,
    /// The entries of the directory at this path, in the order in which they were
    /// read; none where it could not be read as a directory.
    pub listing: Option<Vec<DirEntryInfo>>,
}

/// The view of an optional text.
pub open spec fn option_str_view(s: Option<&str>) -> Option<Seq<char>> {
    match s {
        Some(s) => Some(s@),
        None => None,
    }
}

/// Whether a directory is marked to replace what it covers: its
/// `trusted.overlay.opaque` attribute is `y`, or it holds a `.replace` file.
pub open spec fn replace_marked(e: DirEntryInfo) -> bool {
    (e.opaque_xattr matches Some(v) && v@ == seq![0x79u8]) || e.has_replace_file
}

/// Whether a path is to be skipped: it is one of the lines of the ignore list.
pub open spec fn skip_listed(path: Seq<char>, ignore_list: Option<Seq<char>>) -> bool {
    ignore_list matches Some(text) && has_line(text, path)
}

/// The node that an entry of a module gives: none where its metadata could not be read.
pub open spec fn new_module_model(
    name: Seq<char>,
    e: DirEntryInfo,
    ignore_list: Option<Seq<char>>,
) -> Option<NodeModel> {
    match e.file_type {
        Some(ft) => Some(
            NodeModel {
                name,
                file_type: ft,
                children: Seq::empty(),
                source_path: Some(e.path@),
                replace: ft == NodeFileType::Directory && replace_marked(e),
                skip: skip_listed(e.path@, ignore_list),
            },
        ),
        None => None,
    }
}

/// The first child of `cs` with the name `name`.
pub open spec fn child_index(cs: Seq<NodeModel>, name: Seq<char>) -> Option<int>
    decreases cs.len(),
{
    if cs.len() == 0 {
        None
    } else {
        match child_index(cs.drop_last(), name) {
            Some(i) => Some(i),
            None => if cs.last().name == name {
                Some(cs.len() - 1)
            } else {
                None
            },
        }
    }
}

/// `n` with the children `cs`.
pub open spec fn with_children(n: NodeModel, cs: Seq<NodeModel>) -> NodeModel {
    NodeModel {
        name: n.name,
        file_type: n.file_type,
        children: cs,
        source_path: n.source_path,
        replace: n.replace,
        skip: n.skip,
    }
}

/// The number of entries that a read of `dir` found.
pub open spec fn entry_count(dir: DirEntryInfo) -> int {
    match dir.listing {
        Some(es) => es@.len() as int,
        None => 0,
    }
}

/// Collects the entries of `dir` from the `k`th on into `node`, `has_file` telling
/// whether an earlier entry gave a file: gives the node after and either whether any
/// entry gave a file or the path of a directory that could not be read.
///
/// An entry whose name a child of `node` has goes to that child; else the entry's
/// own node is added, unless its metadata could not be read.  A child that is a
/// directory collects the entry's own entries in turn and gives a file where those do
/// or where it replaces what it covers; any other child gives a file.
pub open spec fn collect_from(
    node: NodeModel,
    dir: DirEntryInfo,
    k: int,
    has_file: bool,
    ignore_list: Option<Seq<char>>,
) -> (NodeModel, Result<bool, Seq<char>>)
    decreases dir, entry_count(dir) - k,
{
    match dir.listing {
        None => (node, Err(dir.path@)),
        Some(es) => if 0 <= k < es@.len() {
            let e = es@[k];
            match entry_slot(node, e, ignore_list) {
                None => collect_from(node, dir, k + 1, has_file, ignore_list),
                Some((n1, i)) => {
                    let c = n1.children[i];
                    if c.file_type == NodeFileType::Directory {
                        proof {
                            assert(decreases_to!(dir => e));
                        }
                        let (c2, r) = collect_from(c, e, 0, false, ignore_list);
                        let n2 = with_children(n1, n1.children.update(i, c2));
                        match r {
                            Err(p) => (n2, Err(p)),
                            Ok(b) => collect_from(
                                n2,
                                dir,
                                k + 1,
                                has_file || b || c.replace,
                                ignore_list,
                            ),
                        }
                    } else {
                        collect_from(n1, dir, k + 1, true, ignore_list)
                    }
                },
            }
        } else {
            (node, Ok(has_file))
        },
    }
}

/// Whether a result of `collect_module_files` is the one that `collect_from` states.
pub open spec fn collect_result_matches(r: Result<bool, Error>, s: Result<bool, Seq<char>>) -> bool {
    match r {
        Ok(b) => s == Ok::<bool, Seq<char>>(b),
        Err(e) => s is Err && (e matches Error::NotADirectory { path } && path@ == s->Err_0),
    }
}

/// The first index in `cs` of a node with the name `name`.
fn child_index_exec(cs: &Vec<Node>, name: &String) -> (r: Option<usize>)
    ensures
        match r {
            Some(i) => child_index(Seq::new(cs@.len(), |j: int| node_model(cs@[j])), name@)
                == Some(i as int),
            None => child_index(Seq::new(cs@.len(), |j: int| node_model(cs@[j])), name@) is None,
        },
{
    let ghost all = Seq::new(cs@.len(), |j: int| node_model(cs@[j]));
    let key = chars_of(name.as_str());
    let mut i: usize = 0;
    assert(all.take(0) =~= Seq::<NodeModel>::empty());
    while i < cs.len()
        invariant
            i <= cs@.len(),
            all == Seq::new(cs@.len(), |j: int| node_model(cs@[j])),
            key@ == name@,
            child_index(all.take(i as int), name@) is None,
        decreases cs.len() - i,
    {
        let c = chars_of(cs[i].name.as_str());
        proof {
            assert(all.take(i + 1).drop_last() =~= all.take(i as int));
            assert(all.take(i + 1).last() == node_model(cs@[i as int]));
        }
        if chars_eq(&c, &key) {
            proof {
                assert(child_index(all.take(i + 1), name@) == Some(i as int));
                lemma_child_index_prefix(all, i + 1, name@);
            }
            return Some(i);
        }
        i = i + 1;
    }
    assert(all.take(i as int) =~= all);
    None
}

/// A child found among the first children is the one found among all.
proof fn lemma_child_index_prefix(cs: Seq<NodeModel>, j: int, name: Seq<char>)
    requires
        0 <= j <= cs.len(),
        child_index(cs.take(j), name) is Some,
    ensures
        child_index(cs, name) == child_index(cs.take(j), name),
    decreases cs.len() - j,
{
    if j < cs.len() {
        assert(cs.take(j + 1).drop_last() =~= cs.take(j));
        lemma_child_index_prefix(cs, j + 1, name);
    } else {
        assert(cs.take(j) =~= cs);
    }
}

/// A child that is found is a child of that name.
proof fn lemma_child_index_found(cs: Seq<NodeModel>, name: Seq<char>)
    ensures
        child_index(cs, name) matches Some(i) ==> 0 <= i < cs.len() && cs[i].name == name,
    decreases cs.len(),
{
    if cs.len() > 0 {
        lemma_child_index_found(cs.drop_last(), name);
    }
}

impl Node {
    /// The root of a mount tree: a directory named `name`, with no children and no
    /// owning module.
    pub fn new_root(name: &str) -> (r: Node)
        ensures
            node_model(r) == (NodeModel {
                name: name@,
                file_type: NodeFileType::Directory,
                children: Seq::empty(),
                source_path: None,
                replace: false,
                skip: false,
            }),
            well_formed(node_model(r)),
    {
        let r = Node {
            name: name.to_owned(),
            file_type: NodeFileType::Directory,
            children: Vec::new(),
            source_path: None,
            replace: false,
            skip: false,
        };
        assert(node_model(r).children =~= Seq::<NodeModel>::empty());
        r
    }

    /// Whether a directory is marked to replace what it covers.
    pub fn dir_is_replace(entry: &DirEntryInfo) -> (r: bool)
        ensures
            r == replace_marked(*entry),
    {
        let marked = match &entry.opaque_xattr {
            Some(v) => v.len() == 1 && v[0] == 0x79u8,
            None => false,
        };
        proof {
            if entry.opaque_xattr is Some {
                let v = entry.opaque_xattr->0;
                if v@.len() == 1 && v@[0] == 0x79u8 {
                    assert(v@ =~= seq![0x79u8]);
                }
            }
        }
        marked || entry.has_replace_file
    }

    /// Whether a path is one of the lines of the ignore list.
    pub fn dir_is_skip(path: &str, ignore_list: Option<&str>) -> (r: bool)
        ensures
            r == skip_listed(path@, option_str_view(ignore_list)),
    {
        match ignore_list {
            Some(text) => text_has_line(text, path),
            None => false,
        }
    }

    /// The node that the entry `entry` of a module, named `name`, gives; none where its
    /// metadata could not be read.
    pub fn new_module(name: &str, entry: &DirEntryInfo, ignore_list: Option<&str>) -> (r: Option<
        Node,
    >)
        ensures
            option_node_model(r) == new_module_model(name@, *entry, option_str_view(ignore_list)),
    {
        match entry.file_type {
            Some(file_type) => {
                let replace = file_type == NodeFileType::Directory && Self::dir_is_replace(entry);
                let skip = Self::dir_is_skip(entry.path.as_str(), ignore_list);
                let n = Node {
                    name: name.to_owned(),
                    file_type,
                    children: Vec::new(),
                    source_path: Some(entry.path.clone()),
                    replace,
                    skip,
                };
                assert(node_model(n).children =~= Seq::<NodeModel>::empty());
                Some(n)
            },
            None => None,
        }
    }

    /// Collects the files of a module directory into this node: each entry goes to the
    /// child of its name, which is made from the entry where there is none, and
    /// directories are collected in turn.  Gives whether the module gives any file,
    /// or `NotADirectory` for the first directory whose entries could not be read.
    pub fn collect_module_files(&mut self, module_dir: &DirEntryInfo, ignore_list: Option<&str>) -> (r:
        Result<bool, Error>)
        ensures
            final(self).name == old(self).name,
            final(self).file_type == old(self).file_type,
            final(self).source_path == old(self).source_path,
            final(self).replace == old(self).replace,
            final(self).skip == old(self).skip,
            node_model(*final(self)) == collect_from(
                node_model(*old(self)),
                *module_dir,
                0,
                false,
                option_str_view(ignore_list),
            ).0,
            collect_result_matches(
                r,
                collect_from(
                    node_model(*old(self)),
                    *module_dir,
                    0,
                    false,
                    option_str_view(ignore_list),
                ).1,
            ),
            well_formed(node_model(*old(self))) ==> well_formed(node_model(*final(self))),
        decreases *module_dir,
    {
        proof {
            if well_formed(node_model(*self)) {
                law_collect_keeps_names_unique(
                    node_model(*self),
                    *module_dir,
                    0,
                    false,
                    option_str_view(ignore_list),
                );
            }
        }
        let ghost ig = option_str_view(ignore_list);
        let ghost start = node_model(*self);
        let entries = match &module_dir.listing {
            Some(es) => es,
            None => {
                return Err(Error::NotADirectory { path: module_dir.path.clone() });
            },
        };
        let mut has_file = false;
        let mut k: usize = 0;
        while k < entries.len()
            invariant
                module_dir.listing == Some(*entries),
                start == node_model(*old(self)),
                well_formed(start) ==> well_formed(collect_from(start, *module_dir, 0, false, ig).0),
                self.name == old(self).name,
                self.file_type == old(self).file_type,
                self.source_path == old(self).source_path,
                self.replace == old(self).replace,
                self.skip == old(self).skip,
                k <= entries@.len(),
                ig == option_str_view(ignore_list),
                collect_from(start, *module_dir, 0, false, ig) == collect_from(
                    node_model(*self),
                    *module_dir,
                    k as int,
                    has_file,
                    ig,
                ),
            decreases entries.len() - k,
        {
            let e = &entries[k];
            let ghost cur = node_model(*self);
            proof {
                assert(cur.children =~= Seq::new(self.children@.len(), |j: int| node_model(self.children@[j])));
            }
            let found = child_index_exec(&self.children, &e.name);
            proof {
                lemma_child_index_found(cur.children, e.name@);
                assert(*e == entries@[k as int]);
            }
            let i = match found {
                Some(i) => i,
                None => match Node::new_module(e.name.as_str(), e, ignore_list) {
                    Some(n) => {
                        self.children.push(n);
                        proof {
                            assert(node_model(*self) =~= with_children(cur, cur.children.push(node_model(n))))
                                by {
                                assert(node_model(*self).children =~= cur.children.push(node_model(n)));
                            }
                        }
                        self.children.len() - 1
                    },
                    None => {
                        k = k + 1;
                        continue ;
                    },
                },
            };
            let ghost n1 = node_model(*self);
            if self.children[i].file_type == NodeFileType::Directory {
                let mut child = self.children.remove(i);
                let ghost c = node_model(child);
                assert(c == n1.children[i as int]);
                proof {
                    assert(decreases_to!(*module_dir => *e));
                }
                let r = child.collect_module_files(e, ignore_list);
                let replace = child.replace;
                let ghost c2 = node_model(child);
                self.children.insert(i, child);
                proof {
                    assert(node_model(*self).children =~= n1.children.update(i as int, c2));
                    assert(node_model(*self) =~= with_children(n1, n1.children.update(i as int, c2)));
                }
                let ghost hf = has_file;
                proof {
                    let rr = collect_from(c, *e, 0, false, ig);
                    assert(rr.0 == c2);
                    assert(n1 == cur || (child_index(cur.children, e.name@) is None && n1
                        == with_children(
                        cur,
                        cur.children.push(new_module_model(e.name@, *e, ig)->0),
                    )));
                    assert(replace == c.replace);
                    if rr.1 is Err {
                        assert(collect_from(cur, *module_dir, k as int, hf, ig) == (
                            node_model(*self),
                            rr.1,
                        ));
                    } else {
                        assert(collect_from(cur, *module_dir, k as int, hf, ig) == collect_from(
                            node_model(*self),
                            *module_dir,
                            k + 1,
                            hf || rr.1->Ok_0 || c.replace,
                            ig,
                        ));
                    }
                }
                match r {
                    Err(err) => {
                        return Err(err);
                    },
                    Ok(b) => {
                        has_file = has_file || b || replace;
                    },
                }
            } else {
                has_file = true;
            }
            k = k + 1;
        }
        Ok(has_file)
    }
}

/// No two of the nodes `cs` have the same name.
pub open spec fn names_unique(cs: Seq<NodeModel>) -> bool {
    forall|i: int, j: int| 0 <= i < j < cs.len() ==> #[trigger] cs[i].name != #[trigger] cs[j].name
}

/// No two children of any node of the tree have the same name.
pub open spec fn well_formed(n: NodeModel) -> bool
    decreases n,
{
    &&& names_unique(n.children)
    &&& forall|i: int|
        0 <= i < n.children.len() ==> well_formed(#[trigger] n.children[i])
}

proof fn lemma_child_index_none(cs: Seq<NodeModel>, name: Seq<char>)
    ensures
        child_index(cs, name) is None ==> forall|j: int| 0 <= j < cs.len() ==> #[trigger] cs[j].name != name,
    decreases cs.len(),
{
    if cs.len() > 0 {
        lemma_child_index_none(cs.drop_last(), name);
        if child_index(cs, name) is None {
            assert forall|j: int| 0 <= j < cs.len() implies #[trigger] cs[j].name != name by {
                if j < cs.len() - 1 {
                    assert(cs.drop_last()[j] == cs[j]);
                }
            }
        }
    }
}

/// Collecting keeps the name, kind, path and marks of the node it collects into.
proof fn lemma_collect_keeps_node(
    node: NodeModel,
    dir: DirEntryInfo,
    k: int,
    has_file: bool,
    ignore_list: Option<Seq<char>>,
)
    ensures
        collect_from(node, dir, k, has_file, ignore_list).0.name == node.name,
        collect_from(node, dir, k, has_file, ignore_list).0.file_type == node.file_type,
        collect_from(node, dir, k, has_file, ignore_list).0.source_path == node.source_path,
        collect_from(node, dir, k, has_file, ignore_list).0.replace == node.replace,
        collect_from(node, dir, k, has_file, ignore_list).0.skip == node.skip,
    decreases dir, entry_count(dir) - k,
{
    match dir.listing {
        None => {},
        Some(es) => {
            if 0 <= k < es@.len() {
                let e = es@[k];
                let slot = entry_slot(node, e, ignore_list);
                match slot {
                    None => {
                        lemma_collect_keeps_node(node, dir, k + 1, has_file, ignore_list);
                    },
                    Some((n1, i)) => {
                        let c = n1.children[i];
                        if c.file_type == NodeFileType::Directory {
                            assert(decreases_to!(dir => e));
                            let (c2, r) = collect_from(c, e, 0, false, ignore_list);
                            let n2 = with_children(n1, n1.children.update(i, c2));
                            match r {
                                Err(p) => {},
                                Ok(b) => {
                                    lemma_collect_keeps_node(
                                        n2,
                                        dir,
                                        k + 1,
                                        has_file || b || c.replace,
                                        ignore_list,
                                    );
                                },
                            }
                        } else {
                            lemma_collect_keeps_node(n1, dir, k + 1, true, ignore_list);
                        }
                    },
                }
            }
        },
    }
}

/// Collecting a module keeps the tree well formed: where no two children of any node
/// had the same name before, none have after.
pub proof fn law_collect_keeps_names_unique(
    node: NodeModel,
    dir: DirEntryInfo,
    k: int,
    has_file: bool,
    ignore_list: Option<Seq<char>>,
)
    requires
        well_formed(node),
    ensures
        well_formed(collect_from(node, dir, k, has_file, ignore_list).0),
    decreases dir, entry_count(dir) - k,
{
    assert(names_unique(node.children));
    assert forall|i: int| 0 <= i < node.children.len() implies #[trigger] well_formed(node.children[i]) by {
        assert(decreases_to!(node => node.children[i]));
    }
    match dir.listing {
        None => {},
        Some(es) => {
            if 0 <= k < es@.len() {
                let e = es@[k];
                lemma_child_index_found(node.children, e.name@);
                lemma_child_index_none(node.children, e.name@);
                let slot = entry_slot(node, e, ignore_list);
                if child_index(node.children, e.name@) is None {
                    if let Some(c) = new_module_model(e.name@, e, ignore_list) {
                        let n1 = with_children(node, node.children.push(c));
                        assert(names_unique(n1.children));
                        assert forall|j: int| 0 <= j < n1.children.len() implies #[trigger] well_formed(n1.children[j]) by {
                            if j < node.children.len() {
                                assert(well_formed(node.children[j]));
                                assert(n1.children[j] == node.children[j]);
                            } else {
                                assert(n1.children[j] == c);
                                assert(names_unique(c.children));
                            }
                        }
                        assert(well_formed(n1)) by {
                            reveal_with_fuel(well_formed, 2);
                        }
                    }
                }
                match slot {
                    None => {
                        law_collect_keeps_names_unique(node, dir, k + 1, has_file, ignore_list);
                    },
                    Some((n1, i)) => {
                        assert(well_formed(n1));
                        let c = n1.children[i];
                        assert(well_formed(n1.children[i]));
                        if c.file_type == NodeFileType::Directory {
                            assert(decreases_to!(dir => e));
                            let (c2, r) = collect_from(c, e, 0, false, ignore_list);
                            law_collect_keeps_names_unique(c, e, 0, false, ignore_list);
                            lemma_collect_keeps_node(c, e, 0, false, ignore_list);
                            let n2 = with_children(n1, n1.children.update(i, c2));
                            assert(names_unique(n2.children)) by {
                                assert forall|p: int, q: int| 0 <= p < q < n2.children.len() implies #[trigger] n2.children[p].name != #[trigger] n2.children[q].name by {
                                    assert(n1.children[p].name == n2.children[p].name);
                                    assert(n1.children[q].name == n2.children[q].name);
                                }
                            }
                            assert forall|j: int| 0 <= j < n2.children.len() implies #[trigger] well_formed(n2.children[j]) by {
                                if j != i {
                                    assert(well_formed(n1.children[j]));
                                    assert(n2.children[j] == n1.children[j]);
                                }
                            }
                            assert(well_formed(n2));
                            match r {
                                Err(p) => {},
                                Ok(b) => {
                                    law_collect_keeps_names_unique(
                                        n2,
                                        dir,
                                        k + 1,
                                        has_file || b || c.replace,
                                        ignore_list,
                                    );
                                },
                            }
                        } else {
                            law_collect_keeps_names_unique(n1, dir, k + 1, true, ignore_list);
                        }
                    },
                }
            }
        },
    }
}

/// The child that the entry `e` goes to in `node`, with the node after it: the child
/// of `e`'s name where there is one, else `e`'s own node added at the end; none where
/// there is no child of that name and `e`'s metadata could not be read.
pub open spec fn entry_slot(node: NodeModel, e: DirEntryInfo, ignore_list: Option<Seq<char>>) -> Option<
    (NodeModel, int),
> {
    match child_index(node.children, e.name@) {
        Some(i) => Some((node, i)),
        None => match new_module_model(e.name@, e, ignore_list) {
            Some(c) => Some((with_children(node, node.children.push(c)), node.children.len() as int)),
            None => None,
        },
    }
}

/// Whether `c` keeps the name, kind, path and marks of `n`.
pub open spec fn same_fields(c: NodeModel, n: NodeModel) -> bool {
    &&& c.name == n.name
    &&& c.file_type == n.file_type
    &&& c.source_path == n.source_path
    &&& c.replace == n.replace
    &&& c.skip == n.skip
}

/// Whether the node `c` has the name, path and kind of the entry `e`.
pub open spec fn entry_gives(c: NodeModel, e: DirEntryInfo) -> bool {
    &&& c.name == e.name@
    &&& c.source_path == Some(e.path@)
    &&& e.file_type == Some(c.file_type)
}

/// Whether the node `c` has the name, path and kind of one of the entries `es`.
pub open spec fn from_an_entry(c: NodeModel, es: Seq<DirEntryInfo>) -> bool {
    exists|m: int| 0 <= m < es.len() && #[trigger] entry_gives(c, es[m])
}

/// Collecting keeps every child that the node had, in its place and with its fields,
/// and each child that it adds has the name, path and kind of one of the entries read.
pub proof fn lemma_collect_children(
    node: NodeModel,
    dir: DirEntryInfo,
    k: int,
    has_file: bool,
    ignore_list: Option<Seq<char>>,
)
    ensures
        collect_from(node, dir, k, has_file, ignore_list).0.children.len() >= node.children.len(),
        forall|j: int|
            0 <= j < node.children.len() ==> same_fields(
                #[trigger] collect_from(node, dir, k, has_file, ignore_list).0.children[j],
                node.children[j],
            ),
        forall|j: int|
            node.children.len() <= j < collect_from(node, dir, k, has_file, ignore_list).0.children.len()
                ==> dir.listing is Some && from_an_entry(
                #[trigger] collect_from(node, dir, k, has_file, ignore_list).0.children[j],
                dir.listing->0@,
            ),
    decreases dir, entry_count(dir) - k,
{
    let r = collect_from(node, dir, k, has_file, ignore_list).0;
    match dir.listing {
        None => {},
        Some(es) => {
            if 0 <= k < es@.len() {
                let e = es@[k];
                let slot = entry_slot(node, e, ignore_list);
                match slot {
                    None => {
                        lemma_collect_children(node, dir, k + 1, has_file, ignore_list);
                    },
                    Some((n1, i)) => {
                        lemma_child_index_found(node.children, e.name@);
                        assert(n1.children.len() >= node.children.len());
                        assert(forall|j: int| 0 <= j < node.children.len() ==> #[trigger] n1.children[j] == node.children[j]);
                        let c = n1.children[i];
                        if c.file_type == NodeFileType::Directory {
                            assert(decreases_to!(dir => e));
                            let (c2, rr) = collect_from(c, e, 0, false, ignore_list);
                            lemma_collect_keeps_node(c, e, 0, false, ignore_list);
                            let n2 = with_children(n1, n1.children.update(i, c2));
                            assert(same_fields(c2, c));
                            assert forall|j: int| 0 <= j < n2.children.len() implies same_fields(#[trigger] n2.children[j], n1.children[j]) by {
                                if j == i {
                                    assert(n2.children[j] == c2);
                                } else {
                                    assert(n2.children[j] == n1.children[j]);
                                }
                            }
                            match rr {
                                Err(p) => {
                                    assert(r == n2);
                                    assert forall|j: int| node.children.len() <= j < r.children.len() implies dir.listing is Some && from_an_entry(#[trigger] r.children[j], dir.listing->0@) by {
                                        assert(j == i);
                                        assert(es@[k] == e);
                                    assert(entry_gives(r.children[j], es@[k]));
                                    }
                                },
                                Ok(b) => {
                                    lemma_collect_children(n2, dir, k + 1, has_file || b || c.replace, ignore_list);
                                    assert(r == collect_from(n2, dir, k + 1, has_file || b || c.replace, ignore_list).0);
                                    assert forall|j: int| 0 <= j < node.children.len() implies same_fields(#[trigger] r.children[j], node.children[j]) by {
                                        assert(same_fields(r.children[j], n2.children[j]));
                                        assert(same_fields(n2.children[j], n1.children[j]));
                                    }
                                    assert forall|j: int| node.children.len() <= j < r.children.len() implies dir.listing is Some && from_an_entry(#[trigger] r.children[j], dir.listing->0@) by {
                                        if j < n2.children.len() {
                                            assert(j == i);
                                            assert(same_fields(r.children[j], n2.children[j]));
                                            assert(es@[k] == e);
                                            assert(entry_gives(r.children[j], es@[k]));
                                    assert(entry_gives(r.children[j], es@[k]));
                                        }
                                    }
                                },
                            }
                        } else {
                            lemma_collect_children(n1, dir, k + 1, true, ignore_list);
                            assert(r == collect_from(n1, dir, k + 1, true, ignore_list).0);
                            assert forall|j: int| node.children.len() <= j < r.children.len() implies dir.listing is Some && from_an_entry(#[trigger] r.children[j], dir.listing->0@) by {
                                if j < n1.children.len() {
                                    assert(same_fields(r.children[j], n1.children[j]));
                                    assert(es@[k] == e);
                                    assert(entry_gives(r.children[j], es@[k]));
                                }
                            }
                        }
                    },
                }
            }
        },
    }
}

/// Once a file is met, collecting gives a file or an error, whatever comes after.
pub proof fn lemma_collect_keeps_file(
    node: NodeModel,
    dir: DirEntryInfo,
    k: int,
    ignore_list: Option<Seq<char>>,
)
    ensures
        collect_from(node, dir, k, true, ignore_list).1 matches Ok(b) ==> b,
    decreases dir, entry_count(dir) - k,
{
    match dir.listing {
        None => {},
        Some(es) => {
            if 0 <= k < es@.len() {
                let e = es@[k];
                match entry_slot(node, e, ignore_list) {
                    None => {
                        lemma_collect_keeps_file(node, dir, k + 1, ignore_list);
                    },
                    Some((n1, i)) => {
                        let c = n1.children[i];
                        if c.file_type == NodeFileType::Directory {
                            assert(decreases_to!(dir => e));
                            let (c2, rr) = collect_from(c, e, 0, false, ignore_list);
                            let n2 = with_children(n1, n1.children.update(i, c2));
                            if rr is Ok {
                                lemma_collect_keeps_file(n2, dir, k + 1, ignore_list);
                            }
                        } else {
                            lemma_collect_keeps_file(n1, dir, k + 1, ignore_list);
                        }
                    },
                }
            }
        },
    }
}

/// An entry that goes to a child that is not a directory, or to a directory that
/// replaces what it covers, makes collecting give a file (or an error).
pub proof fn lemma_collect_file_met(
    node: NodeModel,
    dir: DirEntryInfo,
    k: int,
    has_file: bool,
    ignore_list: Option<Seq<char>>,
)
    requires
        dir.listing is Some,
        0 <= k < dir.listing->0@.len(),
        entry_slot(node, dir.listing->0@[k], ignore_list) matches Some((n1, i)) && (
        n1.children[i].file_type != NodeFileType::Directory || n1.children[i].replace),
    ensures
        collect_from(node, dir, k, has_file, ignore_list).1 matches Ok(b) ==> b,
{
    let es = dir.listing->0;
    let e = es@[k];
    let (n1, i) = entry_slot(node, e, ignore_list)->0;
    let c = n1.children[i];
    if c.file_type == NodeFileType::Directory {
        assert(decreases_to!(dir => e));
        let (c2, rr) = collect_from(c, e, 0, false, ignore_list);
        let n2 = with_children(n1, n1.children.update(i, c2));
        if rr is Ok {
            lemma_collect_keeps_file(n2, dir, k + 1, ignore_list);
        }
    } else {
        lemma_collect_keeps_file(n1, dir, k + 1, ignore_list);
    }
}

/// An entry that goes to a child directory whose own collection gives a file makes
/// collecting give a file (or an error): a file anywhere under the module directory,
/// however deep, counts.
pub proof fn law_collect_file_in_subdirectory(
    node: NodeModel,
    dir: DirEntryInfo,
    k: int,
    has_file: bool,
    ignore_list: Option<Seq<char>>,
)
    requires
        dir.listing is Some,
        0 <= k < dir.listing->0@.len(),
        entry_slot(node, dir.listing->0@[k], ignore_list) matches Some((n1, i)) && (
        n1.children[i].file_type == NodeFileType::Directory && collect_from(
            n1.children[i],
            dir.listing->0@[k],
            0,
            false,
            ignore_list,
        ).1 == Ok::<bool, Seq<char>>(true)),
    ensures
        collect_from(node, dir, k, has_file, ignore_list).1 matches Ok(b) ==> b,
{
    let es = dir.listing->0;
    let e = es@[k];
    let (n1, i) = entry_slot(node, e, ignore_list)->0;
    let c = n1.children[i];
    assert(decreases_to!(dir => e));
    let (c2, rr) = collect_from(c, e, 0, false, ignore_list);
    let n2 = with_children(n1, n1.children.update(i, c2));
    lemma_collect_keeps_file(n2, dir, k + 1, ignore_list);
}

/// Whether an earlier entry gave a file changes neither the tree that collecting makes
/// nor its error; it only joins the answer: collecting with `has_file` gives what
/// collecting without it gives, with `has_file` or-ed into an `Ok`.
pub proof fn law_collect_has_file_joins(
    node: NodeModel,
    dir: DirEntryInfo,
    k: int,
    has_file: bool,
    ignore_list: Option<Seq<char>>,
)
    ensures
        collect_from(node, dir, k, has_file, ignore_list).0 == collect_from(
            node,
            dir,
            k,
            false,
            ignore_list,
        ).0,
        collect_from(node, dir, k, has_file, ignore_list).1 == match collect_from(
            node,
            dir,
            k,
            false,
            ignore_list,
        ).1 {
            Ok(b) => Ok::<bool, Seq<char>>(b || has_file),
            Err(p) => Err(p),
        },
    decreases dir, entry_count(dir) - k,
{
    match dir.listing {
        None => {},
        Some(es) => {
            if 0 <= k < es@.len() {
                let e = es@[k];
                match entry_slot(node, e, ignore_list) {
                    None => {
                        law_collect_has_file_joins(node, dir, k + 1, has_file, ignore_list);
                    },
                    Some((n1, i)) => {
                        let c = n1.children[i];
                        if c.file_type == NodeFileType::Directory {
                            assert(decreases_to!(dir => e));
                            let (c2, rr) = collect_from(c, e, 0, false, ignore_list);
                            let n2 = with_children(n1, n1.children.update(i, c2));
                            if let Ok(b) = rr {
                                law_collect_has_file_joins(n2, dir, k + 1, has_file || b || c.replace, ignore_list);
                                law_collect_has_file_joins(n2, dir, k + 1, b || c.replace, ignore_list);
                            }
                        } else {
                            law_collect_has_file_joins(n1, dir, k + 1, true, ignore_list);
                        }
                    },
                }
            }
        },
    }
}

/// A module directory with no entries gives no file and leaves the node as it was.
pub proof fn law_collect_no_entries_no_file(
    node: NodeModel,
    dir: DirEntryInfo,
    ignore_list: Option<Seq<char>>,
)
    requires
        dir.listing matches Some(es) && es@.len() == 0,
    ensures
        collect_from(node, dir, 0, false, ignore_list) == (node, Ok::<bool, Seq<char>>(false)),
{
}

/// The name of a kind of file, as it is shown.
pub open spec fn file_type_name(t: NodeFileType) -> Seq<char> {
    match t {
        NodeFileType::RegularFile => REGULAR_FILE_NAME@,
        NodeFileType::Directory => DIRECTORY_NAME@,
        NodeFileType::Symlink => SYMLINK_NAME@,
        NodeFileType::Whiteout => WHITEOUT_NAME@,
    }
}

/// How a regular file is shown.
pub const REGULAR_FILE_NAME: &'static str = "RegularFile";

/// How a directory is shown.
pub const DIRECTORY_NAME: &'static str = "Directory";

/// How a symlink is shown.
pub const SYMLINK_NAME: &'static str = "Symlink";

/// How a whiteout is shown.
pub const WHITEOUT_NAME: &'static str = "Whiteout";

/// The mark of a node that replaces what it covers.
pub const REPLACE_MARK: &'static str = " [REPLACE]";

/// The mark of a node that is skipped.
pub const SKIP_MARK: &'static str = " [SKIP]";

impl NodeFileType {
    /// The name of the kind of file, as it is shown.
    pub fn name(&self) -> (r: &'static str)
        ensures
            r@ == file_type_name(*self),
    {
        match self {
            NodeFileType::RegularFile => REGULAR_FILE_NAME,
            NodeFileType::Directory => DIRECTORY_NAME,
            NodeFileType::Symlink => SYMLINK_NAME,
            NodeFileType::Whiteout => WHITEOUT_NAME,
        }
    }
}

/// Two spaces per level of indentation.
pub open spec fn indentation(level: nat) -> Seq<char>
    decreases level,
{
    if level == 0 {
        Seq::empty()
    } else {
        indentation((level - 1) as nat) + seq![' ', ' ']
    }
}

/// The line that shows one node: its name and kind, the path of its module's file,
/// and its marks.
pub open spec fn node_line(n: NodeModel, level: nat) -> Seq<char> {
    indentation(level) + n.name + seq![' ', '('] + file_type_name(n.file_type) + seq![')'] + (
    match n.source_path {
        Some(p) => seq![' ', '['] + p + seq![']'],
        None => Seq::empty(),
    }) + (if n.replace {
        REPLACE_MARK@
    } else {
        Seq::empty()
    }) + (if n.skip {
        SKIP_MARK@
    } else {
        Seq::empty()
    }) + seq!['\n']
}

/// The text that shows the tree under `n`: its line, then its children's trees one
/// level deeper.
pub open spec fn tree_text(n: NodeModel, level: nat) -> Seq<char>
    decreases n, 1int, 0int,
{
    node_line(n, level) + children_text(n, level + 1, n.children.len() as int)
}

/// The trees of the first `k` children of `n`, one after another.
pub open spec fn children_text(n: NodeModel, level: nat, k: int) -> Seq<char>
    decreases n, 0int, k,
{
    if k <= 0 || k > n.children.len() {
        Seq::empty()
    } else {
        proof {
            assert(decreases_to!(n => n.children[k - 1]));
        }
        children_text(n, level, k - 1) + tree_text(n.children[k - 1], level)
    }
}

/// `n` with its skip flag set to `skip`.
pub open spec fn with_skip(n: NodeModel, skip: bool) -> NodeModel {
    NodeModel {
        name: n.name,
        file_type: n.file_type,
        children: n.children,
        source_path: n.source_path,
        replace: n.replace,
        skip,
    }
}

/// The line of a node starts with the indentation of its level, its name and its kind
/// in brackets, and ends with a newline.  A skipped node's line ends with ` [SKIP]`
/// before the newline, whatever its kind; setting the skip flag of a node that was not
/// skipped adds exactly ` [SKIP]` before the newline and changes nothing else.  A node
/// that replaces what it covers and is not skipped ends with ` [REPLACE]`.
pub proof fn law_node_line_marks(n: NodeModel, level: nat)
    ensures
        node_line(n, level).take((indentation(level).len() + n.name.len() + 2) as int) == indentation(
            level,
        ) + n.name + seq![' ', '('],
        node_line(n, level).len() > 0 && node_line(n, level).last() == '\n',
        n.skip ==> node_line(n, level).len() >= 8 && node_line(n, level).skip(
            node_line(n, level).len() - 8,
        ) == seq![' ', '[', 'S', 'K', 'I', 'P', ']', '\n'],
        !n.skip ==> node_line(with_skip(n, true), level) == node_line(n, level).drop_last() + seq![
            ' ',
            '[',
            'S',
            'K',
            'I',
            'P',
            ']',
            '\n',
        ],
        !n.skip && n.replace ==> node_line(n, level).len() >= 11 && node_line(n, level).skip(
            node_line(n, level).len() - 11,
        ) == seq![' ', '[', 'R', 'E', 'P', 'L', 'A', 'C', 'E', ']', '\n'],
        occurs_in(seq!['('] + file_type_name(n.file_type) + seq![')'], node_line(n, level)),
        n.source_path matches Some(p) ==> occurs_in(seq![' ', '['] + p + seq![']'], node_line(n, level)),
{
    reveal_strlit(" [SKIP]");
    reveal_strlit(" [REPLACE]");
    let l = node_line(n, level);
    let head = indentation(level) + n.name + seq![' ', '('];
    let path = match n.source_path {
        Some(p) => seq![' ', '['] + p + seq![']'],
        None => Seq::<char>::empty(),
    };
    let rep = if n.replace {
        REPLACE_MARK@
    } else {
        Seq::<char>::empty()
    };
    let body = head + file_type_name(n.file_type) + seq![')'] + path + rep;
    let sk = seq![' ', '[', 'S', 'K', 'I', 'P', ']'];
    assert(SKIP_MARK@ =~= sk);
    if n.skip {
        assert(l =~= body + sk + seq!['\n']);
    } else {
        assert(l =~= body + seq!['\n']);
        assert(node_line(with_skip(n, true), level) =~= body + sk + seq!['\n']);
        assert(l.drop_last() =~= body);
        if n.replace {
            assert(REPLACE_MARK@ =~= seq![' ', '[', 'R', 'E', 'P', 'L', 'A', 'C', 'E', ']']);
        }
    }
    assert(l.take(head.len() as int) =~= head);
    let ty = seq!['('] + file_type_name(n.file_type) + seq![')'];
    let o1: int = head.len() - 1;
    assert(l.subrange(o1, o1 + ty.len()) =~= ty);
    if let Some(p) = n.source_path {
        let o2: int = (head.len() + file_type_name(n.file_type).len() + 1) as int;
        assert(l.subrange(o2, o2 + path.len()) =~= path);
    }
}

/// Whether `part` stands, as a contiguous part, in `whole`.
pub open spec fn occurs_in(part: Seq<char>, whole: Seq<char>) -> bool {
    exists|off: int|
        0 <= off && off + part.len() <= whole.len() && #[trigger] whole.subrange(off, off + part.len())
            == part
}

proof fn lemma_occurs_in_prefixed(part: Seq<char>, a: Seq<char>, b: Seq<char>)
    requires
        occurs_in(part, b),
    ensures
        occurs_in(part, a + b),
{
    let off = choose|off: int|
        0 <= off && off + part.len() <= b.len() && #[trigger] b.subrange(off, off + part.len()) == part;
    assert((a + b).subrange(a.len() + off, a.len() + off + part.len()) =~= part);
}

proof fn lemma_occurs_in_suffixed(part: Seq<char>, a: Seq<char>, b: Seq<char>)
    requires
        occurs_in(part, a),
    ensures
        occurs_in(part, a + b),
{
    let off = choose|off: int|
        0 <= off && off + part.len() <= a.len() && #[trigger] a.subrange(off, off + part.len()) == part;
    assert((a + b).subrange(off, off + part.len()) =~= part);
}

proof fn lemma_child_text_within(n: NodeModel, level: nat, k: int, i: int)
    requires
        0 <= i < k <= n.children.len(),
    ensures
        occurs_in(tree_text(n.children[i], level), children_text(n, level, k)),
    decreases k,
{
    let prev = children_text(n, level, k - 1);
    let last = tree_text(n.children[k - 1], level);
    assert(children_text(n, level, k) == prev + last);
    if i == k - 1 {
        assert(last.subrange(0int, 0int + last.len()) =~= last);
        assert(occurs_in(last, last));
        lemma_occurs_in_prefixed(last, prev, last);
    } else {
        lemma_child_text_within(n, level, k - 1, i);
        lemma_occurs_in_suffixed(tree_text(n.children[i], level), prev, last);
    }
}

/// The text of a tree starts with the line of its root, and holds the tree of each
/// child, one level deeper, as a contiguous part; so every node of the tree is shown,
/// with its marks.
pub proof fn law_tree_text_shows_children(n: NodeModel, level: nat)
    ensures
        tree_text(n, level).take(node_line(n, level).len() as int) == node_line(n, level),
        forall|i: int|
            0 <= i < n.children.len() ==> occurs_in(
                #[trigger] tree_text(n.children[i], level + 1),
                tree_text(n, level),
            ),
{
    let line = node_line(n, level);
    let rest = children_text(n, level + 1, n.children.len() as int);
    let t = tree_text(n, level);
    assert(t == line + rest);
    assert(t.take(line.len() as int) =~= line);
    assert forall|i: int| 0 <= i < n.children.len() implies occurs_in(
        #[trigger] tree_text(n.children[i], level + 1),
        t,
    ) by {
        lemma_child_text_within(n, level + 1, n.children.len() as int, i);
        lemma_occurs_in_prefixed(tree_text(n.children[i], level + 1), line, rest);
    }
}

/// The number of levels of the tree under `n`, `n`'s own included.
pub open spec fn depth(n: NodeModel) -> nat
    decreases n, 1int, 0int,
{
    1 + children_depth(n, n.children.len() as int)
}

/// The greatest depth of the first `k` children of `n`.
pub open spec fn children_depth(n: NodeModel, k: int) -> nat
    decreases n, 0int, k,
{
    if k <= 0 || k > n.children.len() {
        0
    } else {
        proof {
            assert(decreases_to!(n => n.children[k - 1]));
        }
        let a = children_depth(n, k - 1);
        let b = depth(n.children[k - 1]);
        if a >= b {
            a
        } else {
            b
        }
    }
}

proof fn lemma_child_depth(n: NodeModel, k: int, i: int)
    requires
        0 <= i < k <= n.children.len(),
    ensures
        depth(n.children[i]) <= children_depth(n, k),
    decreases k,
{
    if i < k - 1 {
        lemma_child_depth(n, k - 1, i);
    }
}

impl Node {
    /// The text that shows the tree under this node, `level` levels deep.
    pub fn debug_tree(&self, level: usize) -> (r: String)
        requires
            level + depth(node_model(*self)) <= usize::MAX,
        ensures
            r@ == tree_text(node_model(*self), level as nat),
        decreases *self,
    {
        let mut r = String::new();
        let mut l: usize = 0;
        while l < level
            invariant
                l <= level,
                r@ == indentation(l as nat),
            decreases level - l,
        {
            push_char(&mut r, ' ');
            push_char(&mut r, ' ');
            l = l + 1;
            assert(r@ =~= indentation(l as nat));
        }
        push_str(&mut r, self.name.as_str());
        push_char(&mut r, ' ');
        push_char(&mut r, '(');
        push_str(&mut r, self.file_type.name());
        push_char(&mut r, ')');
        match &self.source_path {
            Some(p) => {
                push_char(&mut r, ' ');
                push_char(&mut r, '[');
                push_str(&mut r, p.as_str());
                push_char(&mut r, ']');
            },
            None => {},
        }
        if self.replace {
            push_str(&mut r, REPLACE_MARK);
        }
        if self.skip {
            push_str(&mut r, SKIP_MARK);
        }
        push_char(&mut r, '\n');
        let ghost n = node_model(*self);
        assert(r@ =~= node_line(n, level as nat));
        let mut i: usize = 0;
        while i < self.children.len()
            invariant
                i <= self.children@.len(),
                n == node_model(*self),
                level + depth(n) <= usize::MAX,
                r@ == node_line(n, level as nat) + children_text(n, (level + 1) as nat, i as int),
            decreases self.children.len() - i,
        {
            proof {
                assert(decreases_to!(*self => self.children@[i as int]));
                assert(n.children[i as int] == node_model(self.children@[i as int]));
                lemma_child_depth(n, n.children.len() as int, i as int);
            }
            let child = self.children[i].debug_tree(level + 1);
            push_str(&mut r, child.as_str());
            assert(r@ =~= node_line(n, level as nat) + children_text(n, (level + 1) as nat, i + 1));
            i = i + 1;
        }
        r
    }
}

} // verus!
