//! The tree of nodes: what has been mounted, and what is known to be below it.
use crate::path;
use crate::path::Component;
use crate::text;
use crate::types::FilesDirs;
use vstd::prelude::*;

verus! {

/// What a node is known to be.
#[derive(PartialEq, Eq, Structural, Debug)]
pub enum NodeType {
    Unknown,
    File,
    Directory,
    Archive,
    Other(usize),
}

impl Default for NodeType {
    fn default() -> (node_type: Self)
        ensures
            node_type == NodeType::Unknown,
    {
        NodeType::Unknown
    }
}

/// A node of the tree. Nodes name each other by their places in the list of all
/// nodes, and drivers by their places in the list of mounted ones; a node without
/// a driver of its own has -1.
#[derive(Debug)]
pub struct Node {
    pub node_type: NodeType,
    pub name: String,
    pub driver_index: i32,
    pub parent: u32,
    pub nodes: Vec<u32>,
    /// What is below the node has yet to be fetched, though its type is known.
    pub unlisted: bool,
}

/// What a [`Node`] stands for.
#[verifier::ext_equal]
pub struct NodeView {
    pub node_type: NodeType,
    pub name: Seq<char>,
    pub driver_index: int,
    pub parent: int,
    pub nodes: Seq<int>,
    pub unlisted: bool,
}

impl View for Node {
    type V = NodeView;

    open spec fn view(&self) -> NodeView {
        NodeView {
            node_type: self.node_type,
            name: self.name@,
            driver_index: self.driver_index as int,
            parent: self.parent as int,
            nodes: Seq::new(self.nodes@.len(), |i: int| self.nodes@[i] as int),
            unlisted: self.unlisted,
        }
    }
}

/// A node as it is made: without children and without a driver.
pub open spec fn new_node(node_type: NodeType, name: Seq<char>, parent: int) -> NodeView {
    NodeView { node_type, name, driver_index: -1, parent, nodes: seq![], unlisted: false }
}

impl Default for Node {
    fn default() -> (node: Node)
        ensures
            node@ == (NodeView {
                node_type: NodeType::Unknown,
                name: seq![],
                driver_index: 0,
                parent: 0,
                nodes: seq![],
                unlisted: false,
            }),
    {
        Node {
            node_type: NodeType::Unknown,
            name: String::new(),
            driver_index: 0,
            parent: 0,
            nodes: Vec::new(),
            unlisted: false,
        }
    }
}

impl Node {
    pub fn new_directory_node(name: String, parent: u32) -> (node: Node)
        ensures
            node@ == new_node(NodeType::Directory, name@, parent as int),
    {
        Node { node_type: NodeType::Directory, name, driver_index: -1, parent, nodes: Vec::new(), unlisted: false }
    }

    pub fn new_file_node(name: String, parent: u32) -> (node: Node)
        ensures
            node@ == new_node(NodeType::File, name@, parent as int),
    {
        Node { node_type: NodeType::File, name, driver_index: -1, parent, nodes: Vec::new(), unlisted: false }
    }
}

/// What a list of nodes stands for.
pub open spec fn views(nodes: Seq<Node>) -> Seq<NodeView> {
    Seq::new(nodes.len(), |i: int| nodes[i]@)
}

/// Every child stands behind its parent in the list of nodes and names it, no
/// node is anybody's child twice, every node but the first is its parent's child,
/// and drivers are mounted ones.
pub open spec fn is_tree(nodes: Seq<NodeView>, node_drivers: int) -> bool {
    &&& nodes.len() > 0
    &&& nodes[0].parent == 0
    &&& forall|i: int|
        0 < i < nodes.len() ==> 0 <= (#[trigger] nodes[i]).parent < i
            && nodes[nodes[i].parent].nodes.contains(i)
    &&& forall|i: int, k: int|
        0 <= i < nodes.len() && 0 <= k < nodes[i].nodes.len() ==> i < (#[trigger] nodes[i].nodes[k])
            < nodes.len() && nodes[nodes[i].nodes[k]].parent == i
    &&& forall|i: int| 0 <= i < nodes.len() ==> (#[trigger] nodes[i]).nodes.no_duplicates()
    &&& forall|i: int|
        0 <= i < nodes.len() ==> -1 <= (#[trigger] nodes[i]).driver_index < node_drivers
}

/// The state of the file system: its nodes, the drivers that are mounted, and the
/// drivers that are tried on what is not.
pub struct VfsState<D> {
    pub nodes: Vec<Node>,
    pub node_drivers: Vec<D>,
    pub drivers: Vec<D>,
}

impl<D> VfsState<D> {
    /// The nodes.
    pub open spec fn tree(&self) -> Seq<NodeView> {
        views(self.nodes@)
    }

    /// The nodes form a tree, and nodes and drivers can be counted in the types that
    /// name them.
    pub open spec fn wf(&self) -> bool {
        &&& is_tree(self.tree(), self.node_drivers@.len() as int)
        &&& self.nodes@.len() <= u32::MAX + 1
        &&& self.node_drivers@.len() <= i32::MAX + 1
    }

    /// A file system with nothing mounted, which will try these drivers in turn.
    pub fn new(drivers: Vec<D>) -> (state: VfsState<D>)
        ensures
            state.wf(),
            state.drivers == drivers,
            state.node_drivers@ == Seq::<D>::empty(),
            state.tree() == seq![new_node(NodeType::Directory, "root"@, 0)],
    {
        let mut nodes: Vec<Node> = Vec::new();
        nodes.push(Node::new_directory_node("root".to_owned(), 0));
        assert(views(nodes@) =~= seq![new_node(NodeType::Directory, "root"@, 0)]);
        VfsState { nodes, node_drivers: Vec::new(), drivers }
    }
}

/// The first of a node's children that has this name.
pub open spec fn find_child(nodes: Seq<NodeView>, children: Seq<int>, name: Seq<char>) -> Option<int>
    decreases children.len(),
{
    if children.len() == 0 {
        None
    } else if nodes[children[0]].name == name {
        Some(children[0])
    } else {
        find_child(nodes, children.drop_first(), name)
    }
}

/// Looks for a child by its name.
pub fn find_entry_in_node(node: &Node, nodes: &Vec<Node>, name: &str) -> (entry: Option<usize>)
    requires
        forall|k: int| 0 <= k < node.nodes@.len() ==> (#[trigger] node.nodes@[k]) < nodes@.len(),
    ensures
        match entry {
            Some(index) => find_child(views(nodes@), node@.nodes, name@) == Some(index as int),
            None => find_child(views(nodes@), node@.nodes, name@) is None,
        },
{
    let wanted: String = name.to_owned();
    let ghost children = node@.nodes;
    let ghost all = views(nodes@);
    let mut k: usize = 0;
    assert(children.skip(0) =~= children);
    while k < node.nodes.len()
        invariant
            k <= node.nodes@.len(),
            children == node@.nodes,
            all == views(nodes@),
            wanted@ == name@,
            forall|k: int| 0 <= k < node.nodes@.len() ==> (#[trigger] node.nodes@[k]) < nodes@.len(),
            find_child(all, children, name@) == find_child(all, children.skip(k as int), name@),
        decreases node.nodes@.len() - k,
    {
        let index: usize = node.nodes[k] as usize;
        assert(children.skip(k as int)[0] == index);
        assert(all[index as int].name == nodes@[index as int].name@);
        if nodes[index].name == wanted {
            return Some(index);
        }
        assert(children.skip(k as int).drop_first() =~= children.skip(k + 1));
        k = k + 1;
    }
    None
}

/// The nodes with one more, which is a child of the node at `index`.
pub open spec fn with_child(nodes: Seq<NodeView>, index: int, node: NodeView) -> Seq<NodeView> {
    nodes.update(
        index,
        NodeView { nodes: nodes[index].nodes.push(nodes.len() as int), ..nodes[index] },
    ).push(node)
}

/// Adds a node below the one at `index`, and gives its place.
pub fn add_new_node<D>(state: &mut VfsState<D>, index: usize, new_node: Node) -> (new_index: usize)
    requires
        index < old(state).nodes@.len() <= u32::MAX,
    ensures
        new_index == old(state).nodes@.len(),
        final(state).tree() == with_child(old(state).tree(), index as int, new_node@),
        final(state).node_drivers == old(state).node_drivers,
        final(state).drivers == old(state).drivers,
{
    let new_index: usize = state.nodes.len();
    state.nodes.push(new_node);
    state.nodes[index].nodes.push(new_index as u32);
    assert(state.tree() =~~= with_child(old(state).tree(), index as int, new_node@));
    new_index
}

/// A new node below an old one leaves a tree.
pub proof fn child_keeps_tree(
    nodes: Seq<NodeView>,
    node_drivers: int,
    index: int,
    node: NodeView,
)
    requires
        is_tree(nodes, node_drivers),
        0 <= index < nodes.len(),
        node.parent == index,
        node.nodes.len() == 0,
        -1 <= node.driver_index < node_drivers,
    ensures
        is_tree(with_child(nodes, index, node), node_drivers),
{
    let n = nodes.len() as int;
    let all = with_child(nodes, index, node);
    let grown = nodes[index].nodes.push(n);
    assert(all[index].nodes == grown);
    assert(grown[grown.len() - 1] == n);
    assert forall|i: int| 0 < i < all.len() implies 0 <= (#[trigger] all[i]).parent < i
        && all[all[i].parent].nodes.contains(i) by {
        if i < n {
            let p = nodes[i].parent;
            assert(all[i].parent == p);
            let k = choose|k: int| 0 <= k < nodes[p].nodes.len() && nodes[p].nodes[k] == i;
            assert(all[p].nodes[k] == i);
        } else {
            assert(all[index].nodes.contains(n));
        }
    }
    assert forall|i: int, k: int| 0 <= i < all.len() && 0 <= k < all[i].nodes.len() implies i < (
    #[trigger] all[i].nodes[k]) < all.len() && all[all[i].nodes[k]].parent == i by {
        if i < n {
            if i != index || k < nodes[index].nodes.len() {
                assert(all[i].nodes[k] == nodes[i].nodes[k]);
            }
        }
    }
    assert forall|i: int| 0 <= i < all.len() implies (#[trigger] all[i]).nodes.no_duplicates() by {
        if i < n {
            assert(nodes[i].nodes.no_duplicates());
            assert forall|a: int, b: int|
                0 <= a < all[i].nodes.len() && 0 <= b < all[i].nodes.len() && a != b implies all[i].nodes[a]
                != all[i].nodes[b] by {
                if a < nodes[i].nodes.len() {
                    assert(nodes[i].nodes[a] < n);
                }
                if b < nodes[i].nodes.len() {
                    assert(nodes[i].nodes[b] < n);
                }
            }
        }
    }
    assert forall|i: int| 0 <= i < all.len() implies -1 <= (#[trigger] all[i]).driver_index
        < node_drivers by {
        if i < n {
            assert(all[i].driver_index == nodes[i].driver_index);
        }
    }
}

/// The nodes with a chain of new ones, which have these names, below the node at
/// `index`.
pub open spec fn with_chain(
    nodes: Seq<NodeView>,
    index: int,
    driver_index: int,
    names: Seq<Seq<char>>,
) -> Seq<NodeView> {
    let n = nodes.len() as int;
    if names.len() == 0 {
        nodes
    } else {
        nodes.update(
            index,
            NodeView { nodes: nodes[index].nodes.push(n), ..nodes[index] },
        ) + Seq::new(
            names.len(),
            |i: int|
                NodeView {
                    node_type: NodeType::Unknown,
                    name: names[i],
                    driver_index,
                    parent: if i == 0 {
                        index
                    } else {
                        n + i - 1
                    },
                    nodes: if i + 1 < names.len() {
                        seq![n + i + 1]
                    } else {
                        seq![]
                    },
                    unlisted: false,
                },
        )
    }
}

/// Adds a chain of nodes, one for each of the components from `from` up to `to`,
/// below the node at `index`. Gives the place of the last one and their number.
pub fn add_path_to_vfs<D>(
    vfs: &mut VfsState<D>,
    index: usize,
    driver_index: i32,
    components: &Vec<Component>,
    from: usize,
    to: usize,
) -> (res: (usize, usize))
    requires
        index < old(vfs).nodes@.len(),
        from <= to <= components@.len(),
        old(vfs).nodes@.len() + (to - from) <= u32::MAX + 1,
        forall|i: int| from <= i < to ==> path::is_named(#[trigger] components@[i]@),
    ensures
        final(vfs).tree() == with_chain(
            old(vfs).tree(),
            index as int,
            driver_index as int,
            path::component_names(
                path::views(components@).subrange(from as int, to as int),
                false,
            ),
        ),
        res.0 == if from == to {
            index as int
        } else {
            old(vfs).nodes@.len() + (to - from) - 1
        },
        res.1 == to - from,
        final(vfs).node_drivers == old(vfs).node_drivers,
        final(vfs).drivers == old(vfs).drivers,
        is_tree(old(vfs).tree(), old(vfs).node_drivers@.len() as int) && -1 <= driver_index < old(
            vfs,
        ).node_drivers@.len() ==> is_tree(
            final(vfs).tree(),
            final(vfs).node_drivers@.len() as int,
        ),
{
    let ghost nodes = vfs.tree();
    let ghost n = nodes.len() as int;
    let ghost cs = path::views(components@).subrange(from as int, to as int);
    let ghost names = path::component_names(cs, false);
    let ghost sound = is_tree(nodes, vfs.node_drivers@.len() as int) && -1 <= driver_index
        < vfs.node_drivers@.len();
    let mut count: usize = 0;
    let mut prefix: bool = false;
    let mut current_index: usize = index;
    assert(with_chain(nodes, index as int, driver_index as int, names.take(0)) == nodes);
    while count < to - from
        invariant
            from <= to <= components@.len(),
            count <= to - from,
            index < n,
            n == nodes.len(),
            n + (to - from) <= u32::MAX + 1,
            forall|i: int| from <= i < to ==> path::is_named(#[trigger] components@[i]@),
            cs == path::views(components@).subrange(from as int, to as int),
            names == path::component_names(cs, false),
            prefix == path::prefix_before(cs, count as int, false),
            current_index == if count == 0 {
                index as int
            } else {
                n + count - 1
            },
            vfs.nodes@.len() == n + count,
            vfs.tree() == with_chain(
                nodes,
                index as int,
                driver_index as int,
                names.take(count as int),
            ),
            vfs.node_drivers == old(vfs).node_drivers,
            vfs.drivers == old(vfs).drivers,
            sound ==> -1 <= driver_index < vfs.node_drivers@.len() && is_tree(
                vfs.tree(),
                vfs.node_drivers@.len() as int,
            ),
        decreases to - from - count,
    {
        let component = &components[from + count];
        assert(component@ == cs[count as int]);
        let name: String = path::get_component_name(component, &mut prefix);
        assert(name@ == names[count as int]);
        let new_node = Node {
            node_type: NodeType::Unknown,
            name,
            driver_index,
            parent: current_index as u32,
            nodes: Vec::new(),
            unlisted: false,
        };
        let ghost before = vfs.tree();
        let ghost node = new_node@;
        proof {
            if sound {
                child_keeps_tree(
                    before,
                    vfs.node_drivers@.len() as int,
                    current_index as int,
                    node,
                );
            }
            assert(prefix == path::prefix_before(cs, count + 1, false)) by {
                if component@ is Prefix {
                    assert(cs[count as int] is Prefix);
                }
            }
        }
        current_index = add_new_node(vfs, current_index, new_node);
        assert(vfs.tree() =~~= with_chain(
            nodes,
            index as int,
            driver_index as int,
            names.take(count + 1),
        ));
        count = count + 1;
    }
    assert(names.take(count as int) =~= names);
    (current_index, count)
}

/// A directory that is known by its name alone, from the listing of the one above.
pub open spec fn listed_dir(name: Seq<char>, parent: int) -> NodeView {
    NodeView { unlisted: true, ..new_node(NodeType::Directory, name, parent) }
}

/// The nodes with a new one below the node at `at` for each of these directories,
/// then one for each of these files.
pub open spec fn with_listing(
    nodes: Seq<NodeView>,
    at: int,
    dirs: Seq<Seq<char>>,
    files: Seq<Seq<char>>,
) -> Seq<NodeView> {
    let n = nodes.len() as int;
    nodes.update(
        at,
        NodeView {
            nodes: nodes[at].nodes + Seq::new(dirs.len() + files.len(), |i: int| n + i),
            ..nodes[at]
        },
    ) + Seq::new(dirs.len(), |i: int| listed_dir(dirs[i], at)) + Seq::new(
        files.len(),
        |i: int| new_node(NodeType::File, files[i], at),
    )
}

/// Adds what is in a directory below its node.
pub fn add_files_dirs_to_vfs<D>(vfs: &mut VfsState<D>, node_index: usize, files_dirs: FilesDirs)
    requires
        node_index < old(vfs).nodes@.len(),
        old(vfs).nodes@.len() + files_dirs.dirs@.len() + files_dirs.files@.len() <= u32::MAX + 1,
    ensures
        final(vfs).tree() == with_listing(
            old(vfs).tree(),
            node_index as int,
            files_dirs@.dirs,
            files_dirs@.files,
        ),
        final(vfs).node_drivers == old(vfs).node_drivers,
        final(vfs).drivers == old(vfs).drivers,
        is_tree(old(vfs).tree(), old(vfs).node_drivers@.len() as int) ==> is_tree(
            final(vfs).tree(),
            final(vfs).node_drivers@.len() as int,
        ),
{
    let ghost nodes = vfs.tree();
    let ghost n = nodes.len() as int;
    let ghost at = node_index as int;
    let ghost drivers = vfs.node_drivers@.len() as int;
    let ghost dirs = files_dirs@.dirs;
    let ghost files = files_dirs@.files;
    assert(nodes =~~= with_listing(nodes, at, dirs.take(0), files.take(0)));
    let mut i: usize = 0;
    while i < files_dirs.dirs.len()
        invariant
            at == node_index < n,
            n == nodes.len(),
            dirs == files_dirs@.dirs,
            files == files_dirs@.files,
            i <= dirs.len(),
            n + dirs.len() + files.len() <= u32::MAX + 1,
            vfs.nodes@.len() == n + i,
            vfs.tree() == with_listing(nodes, at, dirs.take(i as int), files.take(0)),
            vfs.node_drivers == old(vfs).node_drivers,
            vfs.drivers == old(vfs).drivers,
            drivers == vfs.node_drivers@.len(),
            is_tree(nodes, drivers) ==> is_tree(vfs.tree(), drivers),
        decreases dirs.len() - i,
    {
        let name: String = files_dirs.dirs[i].clone();
        let mut node = Node::new_directory_node(name, node_index as u32);
        node.unlisted = true;
        proof {
            if is_tree(nodes, drivers) {
                child_keeps_tree(vfs.tree(), drivers, at, node@);
            }
        }
        add_new_node(vfs, node_index, node);
        assert(vfs.tree() =~~= with_listing(nodes, at, dirs.take(i + 1), files.take(0)));
        i = i + 1;
    }
    assert(dirs.take(i as int) =~= dirs);
    let mut k: usize = 0;
    while k < files_dirs.files.len()
        invariant
            at == node_index < n,
            n == nodes.len(),
            dirs == files_dirs@.dirs,
            files == files_dirs@.files,
            k <= files.len(),
            n + dirs.len() + files.len() <= u32::MAX + 1,
            vfs.nodes@.len() == n + dirs.len() + k,
            vfs.tree() == with_listing(nodes, at, dirs, files.take(k as int)),
            vfs.node_drivers == old(vfs).node_drivers,
            vfs.drivers == old(vfs).drivers,
            drivers == vfs.node_drivers@.len(),
            is_tree(nodes, drivers) ==> is_tree(vfs.tree(), drivers),
        decreases files.len() - k,
    {
        let name: String = files_dirs.files[k].clone();
        let node = Node::new_file_node(name, node_index as u32);
        proof {
            if is_tree(nodes, drivers) {
                child_keeps_tree(vfs.tree(), drivers, at, node@);
            }
        }
        add_new_node(vfs, node_index, node);
        assert(vfs.tree() =~~= with_listing(nodes, at, dirs, files.take(k + 1)));
        k = k + 1;
    }
    assert(files.take(k as int) =~= files);
}

/// The node that lies `steps` above the one at `at`.
pub open spec fn ancestor(nodes: Seq<NodeView>, at: int, steps: int) -> int
    decreases steps,
{
    if steps <= 0 {
        at
    } else {
        ancestor(nodes, nodes[at].parent, steps - 1)
    }
}

/// What lies above a node is a node.
pub proof fn lemma_ancestor(nodes: Seq<NodeView>, node_drivers: int, at: int, steps: int)
    requires
        is_tree(nodes, node_drivers),
        0 <= at < nodes.len(),
    ensures
        0 <= ancestor(nodes, at, steps) <= at,
    decreases steps,
{
    if steps > 0 {
        assert(0 <= nodes[at].parent <= at);
        lemma_ancestor(nodes, node_drivers, nodes[at].parent, steps - 1);
    }
}

/// Goes up from the node at `at`.
pub fn node_above<D>(vfs: &VfsState<D>, at: usize, steps: usize) -> (above: usize)
    requires
        vfs.wf(),
        at < vfs.nodes@.len(),
    ensures
        above == ancestor(vfs.tree(), at as int, steps as int),
        above < vfs.nodes@.len(),
{
    let ghost nodes = vfs.tree();
    let mut above: usize = at;
    let mut left: usize = steps;
    while left > 0
        invariant
            vfs.wf(),
            nodes == vfs.tree(),
            above < nodes.len(),
            ancestor(nodes, at as int, steps as int) == ancestor(nodes, above as int, left as int),
        decreases left,
    {
        assert(0 <= nodes[above as int].parent <= above);
        above = vfs.nodes[above].parent as usize;
        left = left - 1;
    }
    above
}

/// What is below a node has yet to be fetched.
pub open spec fn needs_listing(node: NodeView) -> bool {
    node.node_type == NodeType::Unknown || node.unlisted
}

/// A node that was there before it was listed: the listing tells its type, and what
/// is below it is known or not as it was before.
pub open spec fn with_kind(node: NodeView, dirs: Seq<Seq<char>>, files: Seq<Seq<char>>) -> NodeView {
    if files.contains(node.name) {
        NodeView { node_type: NodeType::File, unlisted: needs_listing(node), ..node }
    } else if dirs.contains(node.name) {
        NodeView { node_type: NodeType::Directory, unlisted: needs_listing(node), ..node }
    } else {
        node
    }
}

/// The nodes, where those below the node at `at` have the types that a listing tells.
pub open spec fn with_kinds(
    nodes: Seq<NodeView>,
    at: int,
    dirs: Seq<Seq<char>>,
    files: Seq<Seq<char>>,
) -> Seq<NodeView> {
    Seq::new(
        nodes.len(),
        |i: int|
            if i != 0 && nodes[i].parent == at {
                with_kind(nodes[i], dirs, files)
            } else {
                nodes[i]
            },
    )
}

/// Those of the names that no node below the one at `at` has.
pub open spec fn new_names(nodes: Seq<NodeView>, at: int, names: Seq<Seq<char>>) -> Seq<Seq<char>>
    decreases names.len(),
{
    if names.len() == 0 {
        seq![]
    } else {
        let before = new_names(nodes, at, names.drop_last());
        if find_child(nodes, nodes[at].nodes, names.last()) is None {
            before.push(names.last())
        } else {
            before
        }
    }
}

/// The node itself, once what is below it has been fetched.
pub open spec fn fetched(node: NodeView) -> NodeView {
    NodeView {
        node_type: if node.node_type == NodeType::Unknown {
            NodeType::Directory
        } else {
            node.node_type
        },
        unlisted: false,
        ..node
    }
}

/// The nodes, once the listing of the directory at `at` has been fetched: what was
/// there before keeps its place, and what was not is added.
pub open spec fn relisted(
    nodes: Seq<NodeView>,
    at: int,
    dirs: Seq<Seq<char>>,
    files: Seq<Seq<char>>,
) -> Seq<NodeView> {
    let all = with_listing(
        with_kinds(nodes, at, dirs, files),
        at,
        new_names(nodes, at, dirs),
        new_names(nodes, at, files),
    );
    all.update(at, fetched(all[at]))
}

/// Tells whether a list has a name.
fn has_name(names: &Vec<String>, name: &String) -> (b: bool)
    ensures
        b == text::texts(names@).contains(name@),
{
    let ghost all = text::texts(names@);
    let mut i: usize = 0;
    while i < names.len()
        invariant
            i <= names@.len(),
            all == text::texts(names@),
            forall|k: int| 0 <= k < i ==> all[k] != name@,
        decreases names@.len() - i,
    {
        assert(all[i as int] == names@[i as int]@);
        if names[i] == *name {
            return true;
        }
        i = i + 1;
    }
    false
}

/// Gives the nodes below the one at `at` the types that a listing tells.
fn set_kinds<D>(vfs: &mut VfsState<D>, at: usize, files_dirs: &FilesDirs)
    ensures
        final(vfs).tree() == with_kinds(
            old(vfs).tree(),
            at as int,
            files_dirs@.dirs,
            files_dirs@.files,
        ),
        final(vfs).node_drivers == old(vfs).node_drivers,
        final(vfs).drivers == old(vfs).drivers,
{
    let ghost nodes = vfs.tree();
    let ghost kinds = with_kinds(nodes, at as int, files_dirs@.dirs, files_dirs@.files);
    let mut i: usize = 0;
    while i < vfs.nodes.len()
        invariant
            i <= vfs.nodes@.len() == nodes.len(),
            kinds == with_kinds(nodes, at as int, files_dirs@.dirs, files_dirs@.files),
            forall|k: int| 0 <= k < i ==> (#[trigger] vfs.nodes@[k])@ == kinds[k],
            forall|k: int| i <= k < nodes.len() ==> (#[trigger] vfs.nodes@[k])@ == nodes[k],
            vfs.node_drivers == old(vfs).node_drivers,
            vfs.drivers == old(vfs).drivers,
        decreases nodes.len() - i,
    {
        assert(vfs.nodes@[i as int]@ == nodes[i as int]);
        if i != 0 && vfs.nodes[i].parent as usize == at {
            let is_file: bool = has_name(&files_dirs.files, &vfs.nodes[i].name);
            let is_dir: bool = has_name(&files_dirs.dirs, &vfs.nodes[i].name);
            if is_file || is_dir {
                let unlisted: bool = vfs.nodes[i].node_type == NodeType::Unknown
                    || vfs.nodes[i].unlisted;
                vfs.nodes[i].unlisted = unlisted;
                vfs.nodes[i].node_type = if is_file {
                    NodeType::File
                } else {
                    NodeType::Directory
                };
            }
        }
        assert(vfs.nodes@[i as int]@ =~= kinds[i as int]);
        i = i + 1;
    }
    assert(vfs.tree() =~= kinds);
}

/// Keeps those of the names that no node below the one at `at` has.
fn keep_new<D>(vfs: &VfsState<D>, at: usize, names: &Vec<String>) -> (kept: Vec<String>)
    requires
        vfs.wf(),
        at < vfs.nodes@.len(),
    ensures
        text::texts(kept@) == new_names(vfs.tree(), at as int, text::texts(names@)),
        kept@.len() <= names@.len(),
{
    let ghost all = text::texts(names@);
    let mut kept: Vec<String> = Vec::new();
    let mut i: usize = 0;
    assert(text::texts(kept@) =~= new_names(vfs.tree(), at as int, all.take(0)));
    while i < names.len()
        invariant
            vfs.wf(),
            at < vfs.nodes@.len(),
            all == text::texts(names@),
            i <= names@.len(),
            kept@.len() <= i,
            text::texts(kept@) == new_names(vfs.tree(), at as int, all.take(i as int)),
        decreases names@.len() - i,
    {
        let ghost before = text::texts(kept@);
        assert(all.take(i + 1).drop_last() =~= all.take(i as int));
        assert(all.take(i + 1).last() == names@[i as int]@);
        if find_entry(vfs, at, names[i].as_str()).is_none() {
            let name: String = names[i].clone();
            kept.push(name);
            assert(text::texts(kept@) =~= before.push(name@));
        }
        i = i + 1;
    }
    assert(all.take(i as int) =~= all);
    kept
}

/// Puts the listing of a directory below its node. What was known to be there before
/// keeps its place.
pub fn list_directory<D>(vfs: &mut VfsState<D>, at: usize, files_dirs: FilesDirs)
    requires
        old(vfs).wf(),
        at < old(vfs).nodes@.len(),
        old(vfs).nodes@.len() + files_dirs.dirs@.len() + files_dirs.files@.len() <= u32::MAX + 1,
    ensures
        final(vfs).tree() == relisted(
            old(vfs).tree(),
            at as int,
            files_dirs@.dirs,
            files_dirs@.files,
        ),
        final(vfs).node_drivers == old(vfs).node_drivers,
        final(vfs).drivers == old(vfs).drivers,
        final(vfs).wf(),
{
    let ghost nodes = vfs.tree();
    let ghost dirs = files_dirs@.dirs;
    let ghost files = files_dirs@.files;
    let new_dirs: Vec<String> = keep_new(vfs, at, &files_dirs.dirs);
    let new_files: Vec<String> = keep_new(vfs, at, &files_dirs.files);
    set_kinds(vfs, at, &files_dirs);
    assert(vfs.tree().len() == nodes.len());
    add_files_dirs_to_vfs(vfs, at, FilesDirs::new(new_files, new_dirs));
    let ghost all = vfs.tree();
    if vfs.nodes[at].node_type == NodeType::Unknown {
        vfs.nodes[at].node_type = NodeType::Directory;
    }
    vfs.nodes[at].unlisted = false;
    assert(vfs.tree() =~~= all.update(at as int, fetched(all[at as int])));
    proof {
        relisting_keeps_tree(nodes, vfs.node_drivers@.len() as int, at as int, dirs, files);
    }
}

/// The nodes have only become more: those that were there keep their places, names
/// and parents, and their children come first among the children that they have now.
pub open spec fn grew(a: Seq<NodeView>, b: Seq<NodeView>) -> bool {
    &&& a.len() <= b.len()
    &&& forall|i: int|
        0 <= i < a.len() ==> (#[trigger] b[i]).name == a[i].name && b[i].parent == a[i].parent
            && a[i].nodes.is_prefix_of(b[i].nodes)
}

/// The nodes have only become more, and no driver is mounted that was not before.
pub open spec fn grew_unmounted(a: Seq<NodeView>, b: Seq<NodeView>) -> bool {
    &&& grew(a, b)
    &&& forall|i: int| 0 <= i < a.len() ==> (#[trigger] b[i]).driver_index == a[i].driver_index
    &&& forall|i: int| a.len() <= i < b.len() ==> (#[trigger] b[i]).driver_index == -1
}

/// What grew from what grew has grown.
pub proof fn growth_is_transitive(a: Seq<NodeView>, b: Seq<NodeView>, c: Seq<NodeView>)
    requires
        grew(a, b),
        grew(b, c),
    ensures
        grew(a, c),
        grew_unmounted(a, b) && grew_unmounted(b, c) ==> grew_unmounted(a, c),
{
    assert forall|i: int| 0 <= i < a.len() implies (#[trigger] c[i]).name == a[i].name
        && c[i].parent == a[i].parent && a[i].nodes.is_prefix_of(c[i].nodes) by {
        assert(b[i].name == a[i].name);
        assert(a[i].nodes =~= c[i].nodes.take(a[i].nodes.len() as int)) by {
            assert forall|k: int| 0 <= k < a[i].nodes.len() implies a[i].nodes[k] == c[i].nodes[k] by {
                assert(a[i].nodes[k] == b[i].nodes[k]);
                assert(b[i].nodes[k] == c[i].nodes[k]);
            }
        }
    }
    if grew_unmounted(a, b) && grew_unmounted(b, c) {
        assert forall|i: int| 0 <= i < a.len() implies (#[trigger] c[i]).driver_index
            == a[i].driver_index by {
            assert(b[i].driver_index == a[i].driver_index);
        }
        assert forall|i: int| a.len() <= i < c.len() implies (#[trigger] c[i]).driver_index
            == -1 by {
            if i < b.len() {
                assert(b[i].driver_index == -1);
            }
        }
    }
}

/// A tree stays one where a node changes in nothing but its type, its driver and
/// whether it is listed.
pub proof fn same_shape_keeps_tree(a: Seq<NodeView>, b: Seq<NodeView>, node_drivers: int)
    requires
        is_tree(a, node_drivers),
        a.len() == b.len(),
        forall|i: int|
            0 <= i < a.len() ==> (#[trigger] b[i]).parent == a[i].parent && b[i].nodes == a[i].nodes
                && -1 <= b[i].driver_index < node_drivers,
    ensures
        is_tree(b, node_drivers),
{
    assert forall|i: int| 0 < i < b.len() implies 0 <= (#[trigger] b[i]).parent < i
        && b[b[i].parent].nodes.contains(i) by {
        assert(a[i].parent == b[i].parent);
    }
    assert forall|i: int, k: int| 0 <= i < b.len() && 0 <= k < b[i].nodes.len() implies i < (
    #[trigger] b[i].nodes[k]) < b.len() && b[b[i].nodes[k]].parent == i by {
        assert(a[i].nodes[k] < a.len());
    }
    assert forall|i: int| 0 <= i < b.len() implies (#[trigger] b[i]).nodes.no_duplicates() by {
        assert(a[i].nodes.no_duplicates());
    }
}

/// A chain only adds to a tree.
pub proof fn chain_grows(nodes: Seq<NodeView>, index: int, names: Seq<Seq<char>>)
    requires
        0 <= index < nodes.len(),
    ensures
        grew_unmounted(nodes, with_chain(nodes, index, -1, names)),
{
}

/// A chain keeps a tree.
pub proof fn chain_keeps_tree(
    nodes: Seq<NodeView>,
    node_drivers: int,
    index: int,
    names: Seq<Seq<char>>,
)
    requires
        is_tree(nodes, node_drivers),
        0 <= index < nodes.len(),
    ensures
        is_tree(with_chain(nodes, index, -1, names), node_drivers),
    decreases names.len(),
{
    if names.len() > 0 {
        let n = nodes.len() as int;
        let fewer = names.drop_last();
        let before = with_chain(nodes, index, -1, fewer);
        let last = if fewer.len() == 0 {
            index
        } else {
            n + fewer.len() - 1
        };
        let node = new_node(NodeType::Unknown, names.last(), last);
        assert(nodes[0].driver_index < node_drivers);
        chain_keeps_tree(nodes, node_drivers, index, fewer);
        child_keeps_tree(before, node_drivers, last, node);
        lemma_chain_child(nodes, index, names);
    }
}

/// A chain is a shorter one and a child of its last node.
proof fn lemma_chain_child(nodes: Seq<NodeView>, index: int, names: Seq<Seq<char>>)
    requires
        0 <= index < nodes.len(),
        names.len() > 0,
    ensures
        ({
            let last = if names.len() == 1 {
                index
            } else {
                nodes.len() + names.len() - 2
            };
            with_chain(nodes, index, -1, names) == with_child(
                with_chain(nodes, index, -1, names.drop_last()),
                last,
                new_node(NodeType::Unknown, names.last(), last),
            )
        }),
{
    let last = if names.len() == 1 {
        index
    } else {
        nodes.len() + names.len() - 2
    };
    let before = with_chain(nodes, index, -1, names.drop_last());
    let node = new_node(NodeType::Unknown, names.last(), last);
    assert(with_chain(nodes, index, -1, names) =~~= with_child(before, last, node));
}

/// A listing only adds to a tree.
pub proof fn listing_grows(
    nodes: Seq<NodeView>,
    at: int,
    dirs: Seq<Seq<char>>,
    files: Seq<Seq<char>>,
)
    requires
        0 <= at < nodes.len(),
    ensures
        grew_unmounted(nodes, with_listing(nodes, at, dirs, files)),
{
}

proof fn lemma_listing_file(
    nodes: Seq<NodeView>,
    at: int,
    dirs: Seq<Seq<char>>,
    files: Seq<Seq<char>>,
)
    requires
        0 <= at < nodes.len(),
        files.len() > 0,
    ensures
        with_listing(nodes, at, dirs, files) == with_child(
            with_listing(nodes, at, dirs, files.drop_last()),
            at,
            new_node(NodeType::File, files.last(), at),
        ),
{
    assert(with_listing(nodes, at, dirs, files) =~~= with_child(
        with_listing(nodes, at, dirs, files.drop_last()),
        at,
        new_node(NodeType::File, files.last(), at),
    ));
}

proof fn lemma_listing_dir(nodes: Seq<NodeView>, at: int, dirs: Seq<Seq<char>>)
    requires
        0 <= at < nodes.len(),
        dirs.len() > 0,
    ensures
        with_listing(nodes, at, dirs, seq![]) == with_child(
            with_listing(nodes, at, dirs.drop_last(), seq![]),
            at,
            listed_dir(dirs.last(), at),
        ),
{
    assert(with_listing(nodes, at, dirs, seq![]) =~~= with_child(
        with_listing(nodes, at, dirs.drop_last(), seq![]),
        at,
        listed_dir(dirs.last(), at),
    ));
}

/// A listing keeps a tree.
pub proof fn listing_keeps_tree(
    nodes: Seq<NodeView>,
    node_drivers: int,
    at: int,
    dirs: Seq<Seq<char>>,
    files: Seq<Seq<char>>,
)
    requires
        is_tree(nodes, node_drivers),
        0 <= at < nodes.len(),
    ensures
        is_tree(with_listing(nodes, at, dirs, files), node_drivers),
    decreases dirs.len() + files.len(),
{
    assert(nodes[0].driver_index < node_drivers);
    if files.len() > 0 {
        let before = with_listing(nodes, at, dirs, files.drop_last());
        listing_keeps_tree(nodes, node_drivers, at, dirs, files.drop_last());
        child_keeps_tree(before, node_drivers, at, new_node(NodeType::File, files.last(), at));
        lemma_listing_file(nodes, at, dirs, files);
    } else if dirs.len() > 0 {
        let before = with_listing(nodes, at, dirs.drop_last(), files);
        listing_keeps_tree(nodes, node_drivers, at, dirs.drop_last(), files);
        child_keeps_tree(before, node_drivers, at, listed_dir(dirs.last(), at));
        assert(files =~= seq![]);
        lemma_listing_dir(nodes, at, dirs);
    } else {
        assert(with_listing(nodes, at, dirs, files) =~~= nodes);
    }
}

/// Fetching a listing only adds to a tree.
pub proof fn relisting_grows(
    nodes: Seq<NodeView>,
    at: int,
    dirs: Seq<Seq<char>>,
    files: Seq<Seq<char>>,
)
    requires
        0 <= at < nodes.len(),
    ensures
        grew_unmounted(nodes, relisted(nodes, at, dirs, files)),
{
    let kinds = with_kinds(nodes, at, dirs, files);
    let d = new_names(nodes, at, dirs);
    let f = new_names(nodes, at, files);
    let all = with_listing(kinds, at, d, f);
    let last = relisted(nodes, at, dirs, files);
    assert(grew_unmounted(nodes, kinds));
    listing_grows(kinds, at, d, f);
    assert(grew_unmounted(all, last));
    growth_is_transitive(nodes, kinds, all);
    growth_is_transitive(nodes, all, last);
}

/// Fetching a listing keeps a tree.
pub proof fn relisting_keeps_tree(
    nodes: Seq<NodeView>,
    node_drivers: int,
    at: int,
    dirs: Seq<Seq<char>>,
    files: Seq<Seq<char>>,
)
    requires
        is_tree(nodes, node_drivers),
        0 <= at < nodes.len(),
    ensures
        is_tree(relisted(nodes, at, dirs, files), node_drivers),
{
    let kinds = with_kinds(nodes, at, dirs, files);
    lemma_kinds_keep_tree(nodes, node_drivers, at, dirs, files);
    let d = new_names(nodes, at, dirs);
    let f = new_names(nodes, at, files);
    listing_keeps_tree(kinds, node_drivers, at, d, f);
    lemma_fetched_keeps_tree(with_listing(kinds, at, d, f), node_drivers, at);
}

proof fn lemma_kinds_keep_tree(
    nodes: Seq<NodeView>,
    node_drivers: int,
    at: int,
    dirs: Seq<Seq<char>>,
    files: Seq<Seq<char>>,
)
    requires
        is_tree(nodes, node_drivers),
    ensures
        is_tree(with_kinds(nodes, at, dirs, files), node_drivers),
{
    same_shape_keeps_tree(nodes, with_kinds(nodes, at, dirs, files), node_drivers);
}

proof fn lemma_fetched_keeps_tree(nodes: Seq<NodeView>, node_drivers: int, at: int)
    requires
        is_tree(nodes, node_drivers),
        0 <= at < nodes.len(),
    ensures
        is_tree(nodes.update(at, fetched(nodes[at])), node_drivers),
{
    same_shape_keeps_tree(nodes, nodes.update(at, fetched(nodes[at])), node_drivers);
}

/// A directory below which nothing was known is listed as it was fetched.
pub proof fn fetched_listing_is_listed(
    nodes: Seq<NodeView>,
    node_drivers: int,
    at: int,
    dirs: Seq<Seq<char>>,
    files: Seq<Seq<char>>,
)
    requires
        is_tree(nodes, node_drivers),
        0 <= at < nodes.len(),
        nodes[at].nodes.len() == 0,
    ensures
        listing(relisted(nodes, at, dirs, files), at) == (crate::types::FilesDirsView {
            files,
            dirs,
        }),
{
    let kinds = with_kinds(nodes, at, dirs, files);
    assert(kinds =~= nodes) by {
        assert forall|i: int| 0 <= i < nodes.len() && i != 0 implies nodes[i].parent != at by {
            assert(nodes[nodes[i].parent].nodes.contains(i));
        }
    }
    lemma_all_new(nodes, at, dirs);
    lemma_all_new(nodes, at, files);
    let all = with_listing(nodes, at, dirs, files);
    let last = all.update(at, fetched(all[at]));
    listing_lists_what_was_added(nodes, node_drivers, at, dirs, files);
    listing_keeps_tree(nodes, node_drivers, at, dirs, files);
    assert forall|k: int| 0 <= k < all[at].nodes.len() implies all[#[trigger] all[at].nodes[k]]
        == last[all[at].nodes[k]] by {}
    lemma_child_names_agree(last, all, all[at].nodes, true);
    lemma_child_names_agree(last, all, all[at].nodes, false);
}

proof fn lemma_all_new(nodes: Seq<NodeView>, at: int, names: Seq<Seq<char>>)
    requires
        nodes[at].nodes.len() == 0,
    ensures
        new_names(nodes, at, names) == names,
    decreases names.len(),
{
    if names.len() > 0 {
        lemma_all_new(nodes, at, names.drop_last());
        assert(names.drop_last().push(names.last()) =~= names);
    } else {
        assert(new_names(nodes, at, names) =~= names);
    }
}

/// The names of those children that are files, or of those that are not.
pub open spec fn child_names(nodes: Seq<NodeView>, children: Seq<int>, files: bool) -> Seq<Seq<char>>
    decreases children.len(),
{
    if children.len() == 0 {
        seq![]
    } else {
        let before = child_names(nodes, children.drop_last(), files);
        let child = nodes[children.last()];
        if (child.node_type == NodeType::File) == files {
            before.push(child.name)
        } else {
            before
        }
    }
}

/// What is known to be in the directory at a node: its children, in their order,
/// of which those that are not known to be files count as directories.
pub open spec fn listing(nodes: Seq<NodeView>, at: int) -> crate::types::FilesDirsView {
    crate::types::FilesDirsView {
        files: child_names(nodes, nodes[at].nodes, true),
        dirs: child_names(nodes, nodes[at].nodes, false),
    }
}

/// Traverses the children of a node and gathers their names.
pub fn list_node<D>(vfs: &VfsState<D>, node_index: usize) -> (files_dirs: FilesDirs)
    requires
        node_index < vfs.nodes@.len(),
        is_tree(vfs.tree(), vfs.node_drivers@.len() as int),
    ensures
        files_dirs@ == listing(vfs.tree(), node_index as int),
{
    let ghost nodes = vfs.tree();
    let ghost children = nodes[node_index as int].nodes;
    let mut files: Vec<String> = Vec::new();
    let mut dirs: Vec<String> = Vec::new();
    let mut k: usize = 0;
    assert(text::texts(files@) =~= child_names(nodes, children.take(0), true));
    assert(text::texts(dirs@) =~= child_names(nodes, children.take(0), false));
    while k < vfs.nodes[node_index].nodes.len()
        invariant
            node_index < vfs.nodes@.len(),
            is_tree(vfs.tree(), vfs.node_drivers@.len() as int),
            nodes == vfs.tree(),
            children == nodes[node_index as int].nodes,
            k <= children.len(),
            text::texts(files@) == child_names(nodes, children.take(k as int), true),
            text::texts(dirs@) == child_names(nodes, children.take(k as int), false),
        decreases children.len() - k,
    {
        let i: usize = vfs.nodes[node_index].nodes[k] as usize;
        assert(i == children[k as int]);
        assert(nodes[node_index as int].nodes[k as int] < nodes.len());
        assert(children.take(k + 1).drop_last() =~= children.take(k as int));
        assert(children.take(k + 1).last() == i);
        let name: String = vfs.nodes[i].name.clone();
        let ghost old_files = text::texts(files@);
        let ghost old_dirs = text::texts(dirs@);
        if vfs.nodes[i].node_type == NodeType::File {
            files.push(name);
            assert(text::texts(files@) =~= old_files.push(nodes[i as int].name));
        } else {
            dirs.push(name);
            assert(text::texts(dirs@) =~= old_dirs.push(nodes[i as int].name));
        }
        k = k + 1;
    }
    assert(children.take(k as int) =~= children);
    FilesDirs::new(files, dirs)
}

/// The names of children depend on nothing but those children.
proof fn lemma_child_names_agree(
    a: Seq<NodeView>,
    b: Seq<NodeView>,
    children: Seq<int>,
    files: bool,
)
    requires
        forall|k: int|
            0 <= k < children.len() ==> a[#[trigger] children[k]].name == b[children[k]].name
                && a[children[k]].node_type == b[children[k]].node_type,
    ensures
        child_names(a, children, files) == child_names(b, children, files),
    decreases children.len(),
{
    if children.len() > 0 {
        lemma_child_names_agree(a, b, children.drop_last(), files);
        assert(children.last() == children[children.len() - 1]);
    }
}

/// Children that are all of one kind add their names to the names of that kind.
proof fn lemma_child_names_of_kind(
    nodes: Seq<NodeView>,
    children: Seq<int>,
    from: int,
    names: Seq<Seq<char>>,
    files: bool,
)
    requires
        forall|i: int|
            0 <= i < names.len() ==> nodes[from + i].name == #[trigger] names[i] && (nodes[from
                + i].node_type == NodeType::File) == files,
    ensures
        child_names(nodes, children + Seq::new(names.len(), |i: int| from + i), files)
            == child_names(nodes, children, files) + names,
        child_names(nodes, children + Seq::new(names.len(), |i: int| from + i), !files)
            == child_names(nodes, children, !files),
    decreases names.len(),
{
    let added = children + Seq::new(names.len(), |i: int| from + i);
    if names.len() == 0 {
        assert(added =~= children);
        assert(child_names(nodes, children, files) + names =~= child_names(nodes, children, files));
    } else {
        let fewer = names.drop_last();
        assert forall|i: int| 0 <= i < fewer.len() implies nodes[from + i].name
            == #[trigger] fewer[i] && (nodes[from + i].node_type == NodeType::File) == files by {
            assert(fewer[i] == names[i]);
        }
        lemma_child_names_of_kind(nodes, children, from, fewer, files);
        assert(added.drop_last() =~= children + Seq::new(fewer.len(), |i: int| from + i));
        assert(added.last() == from + (names.len() - 1));
        assert(nodes[from + (names.len() - 1)].name == names[names.len() - 1]);
        assert((child_names(nodes, children, files) + fewer).push(names.last()) =~= child_names(
            nodes,
            children,
            files,
        ) + names);
    }
}

/// What is added to a directory is listed behind what was there: a directory of
/// which nothing was known is listed as it was added.
pub proof fn listing_lists_what_was_added(
    nodes: Seq<NodeView>,
    node_drivers: int,
    at: int,
    dirs: Seq<Seq<char>>,
    files: Seq<Seq<char>>,
)
    requires
        is_tree(nodes, node_drivers),
        0 <= at < nodes.len(),
    ensures
        listing(with_listing(nodes, at, dirs, files), at) == (crate::types::FilesDirsView {
            files: listing(nodes, at).files + files,
            dirs: listing(nodes, at).dirs + dirs,
        }),
        nodes[at].nodes.len() == 0 ==> listing(with_listing(nodes, at, dirs, files), at) == (
        crate::types::FilesDirsView { files, dirs }),
{
    let n = nodes.len() as int;
    let d = dirs.len() as int;
    let all = with_listing(nodes, at, dirs, files);
    let children = nodes[at].nodes;
    let with_dirs = children + Seq::new(dirs.len(), |i: int| n + i);
    let with_files = with_dirs + Seq::new(files.len(), |i: int| n + d + i);
    assert(all[at].nodes =~= with_files);
    assert forall|k: int| 0 <= k < children.len() implies all[#[trigger] children[k]].name
        == nodes[children[k]].name && all[children[k]].node_type == nodes[children[k]].node_type by {
        assert(nodes[at].nodes[k] < n);
    }
    assert forall|i: int| 0 <= i < dirs.len() implies all[n + i].name == #[trigger] dirs[i] && (all[n
        + i].node_type == NodeType::File) == false by {
        assert(all[n + i] == listed_dir(dirs[i], at));
    }
    assert forall|i: int| 0 <= i < files.len() implies all[n + d + i].name == #[trigger] files[i] && (
    all[n + d + i].node_type == NodeType::File) == true by {
        assert(all[n + d + i] == new_node(NodeType::File, files[i], at));
    }
    lemma_child_names_agree(all, nodes, children, true);
    lemma_child_names_agree(all, nodes, children, false);
    lemma_child_names_of_kind(all, children, n, dirs, false);
    lemma_child_names_of_kind(all, with_dirs, n + d, files, true);
    if children.len() == 0 {
        assert(seq![] + files =~= files);
        assert(seq![] + dirs =~= dirs);
    }
}

/// Where following components down the tree ends.
pub struct Reached {
    /// The node.
    pub node: int,
    /// How many components were followed to it.
    pub count: int,
    /// Whether a prefix has been met.
    pub had_prefix: bool,
}

/// Everything that was added to a directory is found there by its name.
pub proof fn listed_names_are_found(
    nodes: Seq<NodeView>,
    node_drivers: int,
    at: int,
    dirs: Seq<Seq<char>>,
    files: Seq<Seq<char>>,
    name: Seq<char>,
)
    requires
        is_tree(nodes, node_drivers),
        0 <= at < nodes.len(),
        dirs.contains(name) || files.contains(name),
    ensures
        ({
            let all = with_listing(nodes, at, dirs, files);
            &&& find_child(all, all[at].nodes, name) matches Some(child)
            &&& all[child].name == name
            &&& all[at].nodes.contains(child)
        }),
{
    let n = nodes.len() as int;
    let all = with_listing(nodes, at, dirs, files);
    let children = all[at].nodes;
    let old_len = nodes[at].nodes.len() as int;
    lemma_find_child(all, children, name);
    if dirs.contains(name) {
        let i = choose|i: int| 0 <= i < dirs.len() && dirs[i] == name;
        assert(children[old_len + i] == n + i);
        assert(all[n + i].name == name);
    } else {
        let i = choose|i: int| 0 <= i < files.len() && files[i] == name;
        assert(children[old_len + dirs.len() + i] == n + dirs.len() + i);
        assert(all[n + dirs.len() + i].name == name);
    }
}

/// Follows components down from the node at `at` as far as there are children of
/// their names.
pub open spec fn descend(
    nodes: Seq<NodeView>,
    at: int,
    components: Seq<path::ComponentView>,
    had_prefix: bool,
) -> Reached
    decreases components.len(),
{
    if components.len() == 0 {
        Reached { node: at, count: 0, had_prefix }
    } else {
        let had = had_prefix || components[0] is Prefix;
        match find_child(
            nodes,
            nodes[at].nodes,
            path::component_name(components[0], had_prefix),
        ) {
            None => Reached { node: at, count: 0, had_prefix: had },
            Some(child) => {
                let rest = descend(nodes, child, components.drop_first(), had);
                Reached { count: rest.count + 1, ..rest }
            },
        }
    }
}

/// Every component that [`descend`] looks at has a name.
pub open spec fn can_descend(
    nodes: Seq<NodeView>,
    at: int,
    components: Seq<path::ComponentView>,
    had_prefix: bool,
) -> bool
    decreases components.len(),
{
    components.len() == 0 || (path::is_named(components[0]) && match find_child(
        nodes,
        nodes[at].nodes,
        path::component_name(components[0], had_prefix),
    ) {
        None => true,
        Some(child) => can_descend(
            nodes,
            child,
            components.drop_first(),
            had_prefix || components[0] is Prefix,
        ),
    })
}

/// A child that is found is a node.
pub proof fn lemma_found_child(
    nodes: Seq<NodeView>,
    node_drivers: int,
    at: int,
    name: Seq<char>,
)
    requires
        is_tree(nodes, node_drivers),
        0 <= at < nodes.len(),
    ensures
        find_child(nodes, nodes[at].nodes, name) matches Some(child) ==> at < child < nodes.len(),
{
    let children = nodes[at].nodes;
    lemma_find_child(nodes, children, name);
    if let Some(child) = find_child(nodes, children, name) {
        let k = choose|k: int| 0 <= k < children.len() && children[k] == child;
        assert(nodes[at].nodes[k] < nodes.len());
    }
}

/// Looks for a child of the node at `at` by its name.
pub fn find_entry<D>(vfs: &VfsState<D>, at: usize, name: &str) -> (entry: Option<usize>)
    requires
        vfs.wf(),
        at < vfs.nodes@.len(),
    ensures
        match entry {
            Some(index) => find_child(vfs.tree(), vfs.tree()[at as int].nodes, name@) == Some(
                index as int,
            ) && at < index < vfs.nodes@.len(),
            None => find_child(vfs.tree(), vfs.tree()[at as int].nodes, name@) is None,
        },
{
    let ghost nodes = vfs.tree();
    proof {
        lemma_found_child(nodes, vfs.node_drivers@.len() as int, at as int, name@);
        assert forall|k: int| 0 <= k < vfs.nodes@[at as int].nodes@.len() implies (
        #[trigger] vfs.nodes@[at as int].nodes@[k]) < vfs.nodes@.len() by {
            assert(nodes[at as int].nodes[k] < nodes.len());
        }
    }
    find_entry_in_node(&vfs.nodes[at], &vfs.nodes, name)
}

pub proof fn lemma_find_child(nodes: Seq<NodeView>, children: Seq<int>, name: Seq<char>)
    ensures
        match find_child(nodes, children, name) {
            Some(child) => children.contains(child) && nodes[child].name == name,
            None => forall|k: int|
                0 <= k < children.len() ==> nodes[#[trigger] children[k]].name != name,
        },
    decreases children.len(),
{
    if children.len() > 0 {
        if nodes[children[0]].name == name {
            assert(children.contains(children[0]));
        } else {
            let rest = children.drop_first();
            lemma_find_child(nodes, rest, name);
            match find_child(nodes, rest, name) {
                Some(child) => {
                    let k = choose|k: int| 0 <= k < rest.len() && rest[k] == child;
                    assert(children[k + 1] == child);
                },
                None => {
                    assert forall|k: int| 0 <= k < children.len() implies nodes[#[trigger] children[k]].name
                        != name by {
                        if k > 0 {
                            assert(rest[k - 1] == children[k]);
                        }
                    }
                },
            }
        }
    }
}

/// A child behind children of other names is found by its own.
proof fn lemma_find_last_child(nodes: Seq<NodeView>, children: Seq<int>, child: int, name: Seq<char>)
    requires
        forall|k: int| 0 <= k < children.len() ==> nodes[#[trigger] children[k]].name != name,
        nodes[child].name == name,
    ensures
        find_child(nodes, children.push(child), name) == Some(child),
    decreases children.len(),
{
    let all = children.push(child);
    if children.len() > 0 {
        assert(all[0] == children[0]);
        assert(all.drop_first() =~= children.drop_first().push(child));
        assert forall|k: int| 0 <= k < children.drop_first().len() implies nodes[#[trigger] children.drop_first()[k]].name
            != name by {
            assert(children.drop_first()[k] == children[k + 1]);
        }
        lemma_find_last_child(nodes, children.drop_first(), child, name);
    }
}

proof fn lemma_descend_chain(
    nodes: Seq<NodeView>,
    index: int,
    driver_index: int,
    components: Seq<path::ComponentView>,
    i: int,
)
    requires
        0 <= index < nodes.len(),
        0 <= i < components.len(),
    ensures
        descend(
            with_chain(
                nodes,
                index,
                driver_index,
                path::component_names(components, false),
            ),
            nodes.len() + i,
            components.skip(i + 1),
            path::prefix_before(components, i + 1, false),
        ) == (Reached {
            node: nodes.len() + components.len() - 1,
            count: components.len() - 1 - i,
            had_prefix: path::prefix_before(components, components.len() as int, false),
        }),
    decreases components.len() - i,
{
    let n = nodes.len() as int;
    let names = path::component_names(components, false);
    let all = with_chain(nodes, index, driver_index, names);
    let rest = components.skip(i + 1);
    if i + 1 < components.len() {
        lemma_descend_chain(nodes, index, driver_index, components, i + 1);
        assert(rest[0] == components[i + 1]);
        assert(rest.drop_first() =~= components.skip(i + 2));
        assert(all[n + i].nodes == seq![n + i + 1]);
        assert(all[n + i + 1].name == names[i + 1]);
        assert(all[n + i].nodes[0] == n + i + 1);
        assert(path::prefix_before(components, i + 2, false) == (path::prefix_before(
            components,
            i + 1,
            false,
        ) || components[i + 1] is Prefix));
    }
}

/// What was mounted below a node is found again by the components that it was
/// mounted under, unless a child of the first name was already there.
pub proof fn mounted_path_is_found(
    nodes: Seq<NodeView>,
    node_drivers: int,
    index: int,
    driver_index: int,
    components: Seq<path::ComponentView>,
)
    requires
        is_tree(nodes, node_drivers),
        0 <= index < nodes.len(),
        components.len() > 0,
        find_child(nodes, nodes[index].nodes, path::component_name(components[0], false)) is None,
    ensures
        descend(
            with_chain(
                nodes,
                index,
                driver_index,
                path::component_names(components, false),
            ),
            index,
            components,
            false,
        ) == (Reached {
            node: nodes.len() + components.len() - 1,
            count: components.len() as int,
            had_prefix: path::prefix_before(components, components.len() as int, false),
        }),
{
    let n = nodes.len() as int;
    let names = path::component_names(components, false);
    let all = with_chain(nodes, index, driver_index, names);
    let children = nodes[index].nodes;
    let name = path::component_name(components[0], false);
    assert(names[0] == name);
    lemma_find_child(nodes, children, name);
    assert forall|k: int| 0 <= k < children.len() implies all[#[trigger] children[k]].name != name by {
        assert(nodes[index].nodes[k] < n);
    }
    assert(all[n].name == names[0]);
    assert(all[index].nodes == children.push(n));
    lemma_find_last_child(all, children, n, name);
    lemma_descend_chain(nodes, index, driver_index, components, 0);
    assert(components.drop_first() =~= components.skip(1));
    assert(path::prefix_before(components, 1, false) == (components[0] is Prefix));
}

/// There are at least `count` nodes from the one at `at` up to the root, which is not
/// counted.
pub open spec fn is_deep(nodes: Seq<NodeView>, at: int, count: int) -> bool
    decreases count,
{
    count <= 0 || (at > 0 && is_deep(nodes, nodes[at].parent, count - 1))
}

/// None of the components is a prefix.
pub open spec fn no_prefix(components: Seq<path::ComponentView>) -> bool {
    forall|i: int| 0 <= i < components.len() ==> !((#[trigger] components[i]) is Prefix)
}

pub proof fn lemma_ancestor_adds(nodes: Seq<NodeView>, at: int, j: int, k: int)
    requires
        0 <= j,
        0 <= k,
    ensures
        ancestor(nodes, at, j + k) == ancestor(nodes, ancestor(nodes, at, j), k),
    decreases j,
{
    if j > 0 {
        lemma_ancestor_adds(nodes, nodes[at].parent, j - 1, k);
    }
}

/// Following components leads down: to a node from which as many steps lead up again.
pub proof fn lemma_descend(
    nodes: Seq<NodeView>,
    node_drivers: int,
    at: int,
    components: Seq<path::ComponentView>,
    had_prefix: bool,
)
    requires
        is_tree(nodes, node_drivers),
        0 <= at < nodes.len(),
    ensures
        ({
            let r = descend(nodes, at, components, had_prefix);
            &&& at <= r.node < nodes.len()
            &&& 0 <= r.count <= components.len()
            &&& r.count == 0 ==> r.node == at
            &&& ancestor(nodes, r.node, r.count) == at
            &&& forall|c: int| is_deep(nodes, at, c) && c >= 0 ==> #[trigger] is_deep(
                nodes,
                r.node,
                c + r.count,
            )
        }),
    decreases components.len(),
{
    let r = descend(nodes, at, components, had_prefix);
    if components.len() > 0 {
        let had = had_prefix || components[0] is Prefix;
        let name = path::component_name(components[0], had_prefix);
        lemma_found_child(nodes, node_drivers, at, name);
        lemma_find_child(nodes, nodes[at].nodes, name);
        if let Some(child) = find_child(nodes, nodes[at].nodes, name) {
            lemma_descend(nodes, node_drivers, child, components.drop_first(), had);
            let k = choose|k: int| 0 <= k < nodes[at].nodes.len() && nodes[at].nodes[k] == child;
            assert(nodes[nodes[at].nodes[k]].parent == at);
            lemma_ancestor_adds(nodes, r.node, r.count - 1, 1);
            assert(ancestor(nodes, child, 1) == ancestor(nodes, at, 0));
            assert forall|c: int| is_deep(nodes, at, c) && c >= 0 implies #[trigger] is_deep(
                nodes,
                r.node,
                c + r.count,
            ) by {
                assert(is_deep(nodes, child, c + 1));
                assert(is_deep(nodes, r.node, (c + 1) + (r.count - 1)));
            }
        }
    }
}

proof fn lemma_find_child_grown(
    a: Seq<NodeView>,
    b: Seq<NodeView>,
    fewer: Seq<int>,
    more: Seq<int>,
    name: Seq<char>,
)
    requires
        fewer.is_prefix_of(more),
        forall|k: int| 0 <= k < fewer.len() ==> b[#[trigger] fewer[k]].name == a[fewer[k]].name,
        find_child(a, fewer, name) is Some,
    ensures
        find_child(b, more, name) == find_child(a, fewer, name),
    decreases fewer.len(),
{
    assert(more[0] == fewer[0]);
    if a[fewer[0]].name != name {
        let f = fewer.drop_first();
        let m = more.drop_first();
        assert(f =~= m.take(f.len() as int)) by {
            assert forall|k: int| 0 <= k < f.len() implies f[k] == m[k] by {
                assert(fewer[k + 1] == more[k + 1]);
            }
        }
        assert forall|k: int| 0 <= k < f.len() implies b[#[trigger] f[k]].name == a[f[k]].name by {
            assert(f[k] == fewer[k + 1]);
        }
        lemma_find_child_grown(a, b, f, m, name);
    }
}

/// Where a child is found that was not found before, it is new.
proof fn lemma_new_child(
    a: Seq<NodeView>,
    b: Seq<NodeView>,
    node_drivers: int,
    other_drivers: int,
    at: int,
    name: Seq<char>,
)
    requires
        is_tree(a, node_drivers),
        is_tree(b, other_drivers),
        grew(a, b),
        0 <= at < a.len(),
        find_child(a, a[at].nodes, name) is None,
    ensures
        find_child(b, b[at].nodes, name) matches Some(child) ==> a.len() <= child < b.len(),
{
    lemma_find_child(a, a[at].nodes, name);
    lemma_find_child(b, b[at].nodes, name);
    lemma_found_child(b, other_drivers, at, name);
    if let Some(child) = find_child(b, b[at].nodes, name) {
        if child < a.len() {
            let k = choose|k: int| 0 <= k < b[at].nodes.len() && b[at].nodes[k] == child;
            assert(b[b[at].nodes[k]].parent == at);
            assert(b[child].parent == a[child].parent);
            assert(a[a[child].parent].nodes.contains(child));
            let j = choose|j: int| 0 <= j < a[at].nodes.len() && a[at].nodes[j] == child;
            assert(a[a[at].nodes[j]].name != name);
            assert(b[child].name == a[child].name);
        }
    }
}

/// Where following components ended once, it goes on from there after the tree has
/// grown.
pub proof fn lemma_descend_grown(
    a: Seq<NodeView>,
    b: Seq<NodeView>,
    node_drivers: int,
    at: int,
    components: Seq<path::ComponentView>,
)
    requires
        is_tree(a, node_drivers),
        grew(a, b),
        0 <= at < a.len(),
        no_prefix(components),
    ensures
        ({
            let ra = descend(a, at, components, false);
            let rest = descend(b, ra.node, components.skip(ra.count), false);
            &&& !ra.had_prefix
            &&& descend(b, at, components, false) == (Reached {
                node: rest.node,
                count: ra.count + rest.count,
                had_prefix: rest.had_prefix,
            })
        }),
    decreases components.len(),
{
    let ra = descend(a, at, components, false);
    assert(components.skip(0) =~= components);
    if components.len() > 0 {
        let name = path::component_name(components[0], false);
        assert(!(components[0] is Prefix));
        if let Some(child) = find_child(a, a[at].nodes, name) {
            lemma_found_child(a, node_drivers, at, name);
            assert forall|k: int| 0 <= k < a[at].nodes.len() implies b[#[trigger] a[at].nodes[k]].name
                == a[a[at].nodes[k]].name by {
                assert(a[at].nodes[k] < a.len());
            }
            lemma_find_child_grown(a, b, a[at].nodes, b[at].nodes, name);
            let tail = components.drop_first();
            assert(no_prefix(tail)) by {
                assert forall|i: int| 0 <= i < tail.len() implies !((#[trigger] tail[i]) is Prefix) by {
                    assert(tail[i] == components[i + 1]);
                }
            }
            lemma_descend_grown(a, b, node_drivers, child, tail);
            let rt = descend(a, child, tail, false);
            lemma_descend(a, node_drivers, child, tail, false);
            assert(tail.skip(rt.count) =~= components.skip(ra.count));
        }
    }
}

/// Where following components has ended, it does not go on.
pub proof fn lemma_descend_ends(
    nodes: Seq<NodeView>,
    node_drivers: int,
    at: int,
    components: Seq<path::ComponentView>,
)
    requires
        is_tree(nodes, node_drivers),
        0 <= at < nodes.len(),
        no_prefix(components),
    ensures
        ({
            let r = descend(nodes, at, components, false);
            &&& !r.had_prefix
            &&& r.count < components.len() ==> find_child(
                nodes,
                nodes[r.node].nodes,
                path::component_name(components[r.count], false),
            ) is None
        }),
    decreases components.len(),
{
    if components.len() > 0 {
        let name = path::component_name(components[0], false);
        assert(!(components[0] is Prefix));
        if let Some(child) = find_child(nodes, nodes[at].nodes, name) {
            lemma_found_child(nodes, node_drivers, at, name);
            let tail = components.drop_first();
            assert(no_prefix(tail)) by {
                assert forall|i: int| 0 <= i < tail.len() implies !((#[trigger] tail[i]) is Prefix) by {
                    assert(tail[i] == components[i + 1]);
                }
            }
            lemma_descend(nodes, node_drivers, child, tail, false);
            lemma_descend_ends(nodes, node_drivers, child, tail);
            let r = descend(nodes, at, components, false);
            if r.count < components.len() {
                assert(tail[r.count - 1] == components[r.count]);
            }
        }
    }
}

/// Components that all lead on can be followed by more.
pub proof fn lemma_descend_concat(
    nodes: Seq<NodeView>,
    at: int,
    first: Seq<path::ComponentView>,
    more: Seq<path::ComponentView>,
)
    requires
        no_prefix(first),
        descend(nodes, at, first, false).count == first.len(),
    ensures
        ({
            let r = descend(nodes, descend(nodes, at, first, false).node, more, false);
            descend(nodes, at, first + more, false) == (Reached {
                count: first.len() + r.count,
                ..r
            })
        }),
    decreases first.len(),
{
    if first.len() == 0 {
        assert(first + more =~= more);
    } else {
        let all = first + more;
        assert(all[0] == first[0]);
        assert(!(first[0] is Prefix));
        assert(all.drop_first() =~= first.drop_first() + more);
        let tail = first.drop_first();
        assert(no_prefix(tail)) by {
            assert forall|i: int| 0 <= i < tail.len() implies !((#[trigger] tail[i]) is Prefix) by {
                assert(tail[i] == first[i + 1]);
            }
        }
        if let Some(child) = find_child(
            nodes,
            nodes[at].nodes,
            path::component_name(first[0], false),
        ) {
            lemma_descend_concat(nodes, child, tail, more);
        }
    }
}

/// Once the next components are in the tree as a chain, they are followed to its end.
pub proof fn lemma_descend_chained(
    nodes: Seq<NodeView>,
    node_drivers: int,
    components: Seq<path::ComponentView>,
    end: int,
)
    requires
        is_tree(nodes, node_drivers),
        no_prefix(components),
        descend(nodes, 0, components, false).count < end <= components.len(),
    ensures
        ({
            let r = descend(nodes, 0, components, false);
            let part = components.subrange(r.count, end);
            let all = with_chain(nodes, r.node, -1, path::component_names(part, false));
            descend(all, 0, components, false) == (Reached {
                node: nodes.len() + (end - r.count) - 1,
                count: end,
                had_prefix: false,
            })
        }),
{
    let r = descend(nodes, 0, components, false);
    let part = components.subrange(r.count, end);
    let more = components.skip(end);
    let names = path::component_names(part, false);
    let all = with_chain(nodes, r.node, -1, names);
    lemma_descend(nodes, node_drivers, 0, components, false);
    lemma_descend_ends(nodes, node_drivers, 0, components);
    assert(part[0] == components[r.count]);
    chain_grows(nodes, r.node, names);
    lemma_descend_grown(nodes, all, node_drivers, 0, components);
    mounted_path_is_found(nodes, node_drivers, r.node, -1, part);
    assert(no_prefix(part)) by {
        assert forall|i: int| 0 <= i < part.len() implies !((#[trigger] part[i]) is Prefix) by {
            assert(part[i] == components[r.count + i]);
        }
    }
    lemma_descend_concat(all, r.node, part, more);
    assert(components.skip(r.count) =~= part + more);
    let last = nodes.len() + (end - r.count) - 1;
    assert(all[last].nodes =~= seq![]);
    assert(no_prefix(more)) by {
        assert forall|i: int| 0 <= i < more.len() implies !((#[trigger] more[i]) is Prefix) by {
            assert(more[i] == components[end + i]);
        }
    }
    if more.len() > 0 {
        assert(!(more[0] is Prefix));
        assert(find_child(
            all,
            all[last].nodes,
            path::component_name(more[0], false),
        ) is None);
    }
}

/// After a tree has grown, following components ends at the same node, or at a new
/// one below it.
pub proof fn lemma_descend_below(
    a: Seq<NodeView>,
    b: Seq<NodeView>,
    node_drivers: int,
    other_drivers: int,
    components: Seq<path::ComponentView>,
)
    requires
        is_tree(a, node_drivers),
        is_tree(b, other_drivers),
        grew(a, b),
        no_prefix(components),
    ensures
        ({
            let ra = descend(a, 0, components, false);
            let rb = descend(b, 0, components, false);
            let rest = components.skip(ra.count);
            let below = descend(b, ra.node, rest, false);
            &&& 0 <= ra.count <= rb.count <= components.len()
            &&& rb.node == below.node
            &&& rb.count == ra.count + below.count
            &&& ancestor(b, rb.node, rb.count - ra.count) == ra.node
            &&& no_prefix(rest)
            &&& rest.len() > 0 ==> (find_child(
                b,
                b[ra.node].nodes,
                path::component_name(rest[0], false),
            ) matches Some(child) ==> a.len() <= child < b.len())
            &&& a.len() == b.len() ==> rb == ra
            &&& !rb.had_prefix
            &&& !ra.had_prefix
        }),
{
    let ra = descend(a, 0, components, false);
    let rest = components.skip(ra.count);
    lemma_descend(a, node_drivers, 0, components, false);
    lemma_descend_ends(a, node_drivers, 0, components);
    lemma_descend_grown(a, b, node_drivers, 0, components);
    assert(no_prefix(rest)) by {
        assert forall|i: int| 0 <= i < rest.len() implies !((#[trigger] rest[i]) is Prefix) by {
            assert(rest[i] == components[ra.count + i]);
        }
    }
    lemma_descend(b, other_drivers, ra.node, rest, false);
    lemma_descend_ends(b, other_drivers, ra.node, rest);
    if rest.len() > 0 {
        assert(rest[0] == components[ra.count]);
        lemma_new_child(
            a,
            b,
            node_drivers,
            other_drivers,
            ra.node,
            path::component_name(rest[0], false),
        );
    }
}

/// The first components lead to what lies above the node that all of them lead to.
pub proof fn lemma_descend_take(
    nodes: Seq<NodeView>,
    node_drivers: int,
    at: int,
    components: Seq<path::ComponentView>,
    k: int,
)
    requires
        is_tree(nodes, node_drivers),
        0 <= at < nodes.len(),
        no_prefix(components),
        0 <= k <= descend(nodes, at, components, false).count,
    ensures
        ({
            let r = descend(nodes, at, components, false);
            descend(nodes, at, components.take(k), false) == (Reached {
                node: ancestor(nodes, r.node, r.count - k),
                count: k,
                had_prefix: false,
            })
        }),
    decreases components.len(),
{
    lemma_descend(nodes, node_drivers, at, components, false);
    let first = components.take(k);
    if k > 0 {
        let name = path::component_name(components[0], false);
        assert(!(components[0] is Prefix));
        lemma_found_child(nodes, node_drivers, at, name);
        let child = find_child(nodes, nodes[at].nodes, name)->0;
        let tail = components.drop_first();
        assert(no_prefix(tail)) by {
            assert forall|i: int| 0 <= i < tail.len() implies !((#[trigger] tail[i]) is Prefix) by {
                assert(tail[i] == components[i + 1]);
            }
        }
        assert(first[0] == components[0]);
        assert(first.drop_first() =~= tail.take(k - 1));
        lemma_descend_take(nodes, node_drivers, child, tail, k - 1);
    }
}

/// The node that components lead to has the name of the last of them.
pub proof fn lemma_descend_name(
    nodes: Seq<NodeView>,
    node_drivers: int,
    at: int,
    components: Seq<path::ComponentView>,
)
    requires
        is_tree(nodes, node_drivers),
        0 <= at < nodes.len(),
        no_prefix(components),
        descend(nodes, at, components, false).count > 0,
    ensures
        ({
            let r = descend(nodes, at, components, false);
            nodes[r.node].name == path::component_name(components[r.count - 1], false)
        }),
    decreases components.len(),
{
    let name = path::component_name(components[0], false);
    assert(!(components[0] is Prefix));
    lemma_found_child(nodes, node_drivers, at, name);
    lemma_find_child(nodes, nodes[at].nodes, name);
    let child = find_child(nodes, nodes[at].nodes, name)->0;
    let tail = components.drop_first();
    assert(no_prefix(tail)) by {
        assert forall|i: int| 0 <= i < tail.len() implies !((#[trigger] tail[i]) is Prefix) by {
            assert(tail[i] == components[i + 1]);
        }
    }
    let rest = descend(nodes, child, tail, false);
    lemma_descend(nodes, node_drivers, child, tail, false);
    if rest.count > 0 {
        lemma_descend_name(nodes, node_drivers, child, tail);
        assert(tail[rest.count - 1] == components[rest.count]);
    }
}

/// What lies above a node does not change where a tree grows.
pub proof fn lemma_ancestor_grown(
    a: Seq<NodeView>,
    b: Seq<NodeView>,
    node_drivers: int,
    at: int,
    steps: int,
)
    requires
        is_tree(a, node_drivers),
        grew(a, b),
        0 <= at < a.len(),
    ensures
        ancestor(b, at, steps) == ancestor(a, at, steps),
    decreases steps,
{
    if steps > 0 {
        assert(b[at].parent == a[at].parent);
        assert(0 <= a[at].parent <= at);
        lemma_ancestor_grown(a, b, node_drivers, a[at].parent, steps - 1);
    }
}

/// Everything that was fetched is listed.
pub proof fn fetched_names_are_listed(
    nodes: Seq<NodeView>,
    node_drivers: int,
    at: int,
    dirs: Seq<Seq<char>>,
    files: Seq<Seq<char>>,
    name: Seq<char>,
)
    requires
        is_tree(nodes, node_drivers),
        0 <= at < nodes.len(),
    ensures
        files.contains(name) ==> listing(relisted(nodes, at, dirs, files), at).files.contains(name),
        dirs.contains(name) && !files.contains(name) ==> listing(
            relisted(nodes, at, dirs, files),
            at,
        ).dirs.contains(name),
{
    let kinds = with_kinds(nodes, at, dirs, files);
    let d = new_names(nodes, at, dirs);
    let f = new_names(nodes, at, files);
    let all = with_listing(kinds, at, d, f);
    let last = relisted(nodes, at, dirs, files);
    let children = last[at].nodes;
    let old = nodes[at].nodes;
    let n = nodes.len() as int;
    assert(children =~= old + Seq::new(d.len() + f.len(), |i: int| n + i));
    lemma_find_child(nodes, old, name);
    if files.contains(name) || dirs.contains(name) {
        match find_child(nodes, old, name) {
            Some(child) => {
                let k = choose|k: int| 0 <= k < old.len() && old[k] == child;
                assert(at < nodes[at].nodes[k] < n && nodes[nodes[at].nodes[k]].parent == at);
                assert(children[k] == child);
                assert(last[child] == with_kind(nodes[child], dirs, files));
                lemma_child_name(last, children, k);
            },
            None => {
                if files.contains(name) {
                    lemma_new_name(nodes, at, files, name);
                    let i = choose|i: int| 0 <= i < f.len() && f[i] == name;
                    assert(children[old.len() + d.len() + i] == n + d.len() + i);
                    assert(last[n + d.len() + i] == new_node(NodeType::File, name, at));
                    lemma_child_name(last, children, old.len() + d.len() + i);
                } else {
                    lemma_new_name(nodes, at, dirs, name);
                    let i = choose|i: int| 0 <= i < d.len() && d[i] == name;
                    assert(children[old.len() + i] == n + i);
                    assert(last[n + i] == listed_dir(name, at));
                    lemma_child_name(last, children, old.len() + i);
                }
            },
        }
    }
}

proof fn lemma_new_name(
    nodes: Seq<NodeView>,
    at: int,
    names: Seq<Seq<char>>,
    name: Seq<char>,
)
    requires
        names.contains(name),
        find_child(nodes, nodes[at].nodes, name) is None,
    ensures
        new_names(nodes, at, names).contains(name),
    decreases names.len(),
{
    let all = new_names(nodes, at, names);
    let fewer = names.drop_last();
    let before = new_names(nodes, at, fewer);
    if names.last() == name {
        assert(all[before.len() as int] == name);
    } else {
        let k = choose|k: int| 0 <= k < names.len() && names[k] == name;
        assert(fewer[k] == name);
        lemma_new_name(nodes, at, fewer, name);
        let j = choose|j: int| 0 <= j < before.len() && before[j] == name;
        assert(all[j] == name);
    }
}

proof fn lemma_child_name(nodes: Seq<NodeView>, children: Seq<int>, k: int)
    requires
        0 <= k < children.len(),
    ensures
        child_names(nodes, children, nodes[children[k]].node_type == NodeType::File).contains(
            nodes[children[k]].name,
        ),
    decreases children.len(),
{
    let files = nodes[children[k]].node_type == NodeType::File;
    let name = nodes[children[k]].name;
    let all = child_names(nodes, children, files);
    let fewer = children.drop_last();
    let before = child_names(nodes, fewer, files);
    if k == children.len() - 1 {
        assert(all[before.len() as int] == name);
    } else {
        assert(fewer[k] == children[k]);
        lemma_child_name(nodes, fewer, k);
        let j = choose|j: int| 0 <= j < before.len() && before[j] == name;
        assert(all[j] == name);
    }
}

proof fn lemma_child_names_picked(
    nodes: Seq<NodeView>,
    children: Seq<int>,
    files: bool,
    picks: spec_fn(int) -> bool,
    name: spec_fn(int) -> Seq<char>,
)
    requires
        forall|k: int|
            0 <= k < children.len() ==> picks(#[trigger] children[k]) == ((nodes[children[k]].node_type
                == NodeType::File) == files) && name(children[k]) == nodes[children[k]].name,
    ensures
        child_names(nodes, children, files) == children.filter(picks).map_values(name),
    decreases children.len(),
{
    reveal(Seq::filter);
    if children.len() > 0 {
        let fewer = children.drop_last();
        assert forall|k: int| 0 <= k < fewer.len() implies picks(#[trigger] fewer[k]) == ((
        nodes[fewer[k]].node_type == NodeType::File) == files) && name(fewer[k])
            == nodes[fewer[k]].name by {
            assert(fewer[k] == children[k]);
        }
        lemma_child_names_picked(nodes, fewer, files, picks, name);
        assert(children.last() == children[children.len() - 1]);
        assert(child_names(nodes, children, files) =~= children.filter(picks).map_values(name));
    } else {
        assert(child_names(nodes, children, files) =~= children.filter(picks).map_values(name));
    }
}

/// The listing of a node has all its children, in their order: the files among the files,
/// and everything else among the directories.
pub proof fn a_listing_has_all_children(nodes: Seq<NodeView>, at: int)
    ensures
        listing(nodes, at).files == nodes[at].nodes.filter(
            |child: int| nodes[child].node_type == NodeType::File,
        ).map_values(|child: int| nodes[child].name),
        listing(nodes, at).dirs == nodes[at].nodes.filter(
            |child: int| nodes[child].node_type != NodeType::File,
        ).map_values(|child: int| nodes[child].name),
{
    let name = |child: int| nodes[child].name;
    lemma_child_names_picked(
        nodes,
        nodes[at].nodes,
        true,
        |child: int| nodes[child].node_type == NodeType::File,
        name,
    );
    lemma_child_names_picked(
        nodes,
        nodes[at].nodes,
        false,
        |child: int| nodes[child].node_type != NodeType::File,
        name,
    );
}

/// A child is found by its name where there is one, and the first of those that have it.
pub proof fn the_first_child_of_a_name_is_found(
    nodes: Seq<NodeView>,
    children: Seq<int>,
    name: Seq<char>,
)
    ensures
        match find_child(nodes, children, name) {
            Some(child) => exists|k: int|
                {
                    &&& 0 <= k < children.len()
                    &&& #[trigger] children[k] == child
                    &&& nodes[child].name == name
                    &&& forall|j: int| 0 <= j < k ==> nodes[#[trigger] children[j]].name != name
                },
            None => forall|k: int|
                0 <= k < children.len() ==> nodes[#[trigger] children[k]].name != name,
        },
    decreases children.len(),
{
    lemma_find_child(nodes, children, name);
    if children.len() > 0 {
        if nodes[children[0]].name == name {
            assert(children[0] == find_child(nodes, children, name)->0);
        } else {
            let rest = children.drop_first();
            the_first_child_of_a_name_is_found(nodes, rest, name);
            if let Some(child) = find_child(nodes, children, name) {
                let k = choose|k: int|
                    {
                        &&& 0 <= k < rest.len()
                        &&& #[trigger] rest[k] == child
                        &&& nodes[child].name == name
                        &&& forall|j: int| 0 <= j < k ==> nodes[#[trigger] rest[j]].name != name
                    };
                assert(children[k + 1] == child);
                assert forall|j: int| 0 <= j < k + 1 implies nodes[#[trigger] children[j]].name
                    != name by {
                    if j > 0 {
                        assert(rest[j - 1] == children[j]);
                    }
                }
            }
        }
    }
}

proof fn lemma_new_names_picked(
    nodes: Seq<NodeView>,
    at: int,
    names: Seq<Seq<char>>,
    picks: spec_fn(Seq<char>) -> bool,
)
    requires
        forall|name: Seq<char>| #[trigger]
            picks(name) <==> forall|k: int|
                0 <= k < nodes[at].nodes.len() ==> nodes[#[trigger] nodes[at].nodes[k]].name != name,
    ensures
        new_names(nodes, at, names) == names.filter(picks),
    decreases names.len(),
{
    reveal(Seq::filter);
    if names.len() > 0 {
        lemma_new_names_picked(nodes, at, names.drop_last(), picks);
        lemma_find_child(nodes, nodes[at].nodes, names.last());
        let picked = picks(names.last());
        if let Some(child) = find_child(nodes, nodes[at].nodes, names.last()) {
            let k = choose|k: int|
                0 <= k < nodes[at].nodes.len() && nodes[at].nodes[k] == child;
            assert(nodes[nodes[at].nodes[k]].name == names.last());
        }
        assert(new_names(nodes, at, names) =~= names.filter(picks));
    } else {
        assert(new_names(nodes, at, names) =~= names.filter(picks));
    }
}

/// What a directory is listed as once its listing has been fetched. The children that
/// were known come first, in their order, each as the file or the directory that the
/// listing says it is, or as what it was where the listing does not say. Those names that
/// no child had follow, in the order of the listing.
pub proof fn a_fetched_listing_is_added_to_what_was_known(
    nodes: Seq<NodeView>,
    node_drivers: int,
    at: int,
    dirs: Seq<Seq<char>>,
    files: Seq<Seq<char>>,
)
    requires
        is_tree(nodes, node_drivers),
        0 <= at < nodes.len(),
    ensures
        ({
            let told = listing(relisted(nodes, at, dirs, files), at);
            let known = nodes[at].nodes;
            let is_file = |child: int|
                files.contains(nodes[child].name) || (nodes[child].node_type == NodeType::File
                    && !dirs.contains(nodes[child].name));
            let is_new = |name: Seq<char>|
                forall|k: int| 0 <= k < known.len() ==> nodes[#[trigger] known[k]].name != name;
            &&& told.files == known.filter(is_file).map_values(|child: int| nodes[child].name)
                + files.filter(is_new)
            &&& told.dirs == known.filter(|child: int| !is_file(child)).map_values(
                |child: int| nodes[child].name,
            ) + dirs.filter(is_new)
        }),
{
    let known = nodes[at].nodes;
    let is_file = |child: int|
        files.contains(nodes[child].name) || (nodes[child].node_type == NodeType::File
            && !dirs.contains(nodes[child].name));
    let is_other = |child: int| !is_file(child);
    let is_new = |name: Seq<char>|
        forall|k: int| 0 <= k < known.len() ==> nodes[#[trigger] known[k]].name != name;
    let name = |child: int| nodes[child].name;
    let kinds = with_kinds(nodes, at, dirs, files);
    let d = new_names(nodes, at, dirs);
    let f = new_names(nodes, at, files);
    let all = with_listing(kinds, at, d, f);
    let last = relisted(nodes, at, dirs, files);
    lemma_new_names_picked(nodes, at, dirs, is_new);
    lemma_new_names_picked(nodes, at, files, is_new);
    lemma_kinds_keep_tree(nodes, node_drivers, at, dirs, files);
    listing_lists_what_was_added(kinds, node_drivers, at, d, f);
    listing_keeps_tree(kinds, node_drivers, at, d, f);
    assert forall|k: int| 0 <= k < known.len() implies kinds[#[trigger] known[k]] == with_kind(
        nodes[known[k]],
        dirs,
        files,
    ) by {
        assert(at < nodes[at].nodes[k] < nodes.len() && nodes[nodes[at].nodes[k]].parent == at);
    }
    assert(kinds[at].nodes == known);
    lemma_child_names_picked(kinds, known, true, is_file, name);
    lemma_child_names_picked(kinds, known, false, is_other, name);
    assert(last[at].nodes == all[at].nodes);
    assert forall|k: int| 0 <= k < all[at].nodes.len() implies last[#[trigger] all[at].nodes[k]]
        == all[all[at].nodes[k]] by {
        assert(at < all[at].nodes[k]);
    }
    lemma_child_names_agree(last, all, all[at].nodes, true);
    lemma_child_names_agree(last, all, all[at].nodes, false);
}

/// A path leads down from the root along nodes that are named as its components are, as
/// far as there are such nodes.
pub proof fn a_path_leads_along_its_names(
    path: Seq<char>,
    nodes: Seq<NodeView>,
    node_drivers: int,
)
    requires
        is_tree(nodes, node_drivers),
    ensures
        ({
            let components = path::path_components(path);
            let reached = descend(nodes, 0, components, false);
            let at = |k: int| ancestor(nodes, reached.node, reached.count - k);
            &&& 0 <= reached.count <= components.len()
            &&& at(0) == 0
            &&& forall|k: int|
                0 < k <= reached.count ==> {
                    &&& 0 < #[trigger] at(k) < nodes.len()
                    &&& nodes[at(k)].parent == at(k - 1)
                    &&& components[k - 1] matches path::ComponentView::Normal(text)
                        ==> nodes[at(k)].name == text
                    &&& components[k - 1] is RootDir ==> nodes[at(k)].name == seq!['/']
                }
            &&& reached.count < components.len() ==> (components[reached.count]
                matches path::ComponentView::Normal(text) ==> forall|j: int|
                0 <= j < nodes[reached.node].nodes.len()
                    ==> nodes[#[trigger] nodes[reached.node].nodes[j]].name != text)
        }),
{
    let components = path::path_components(path);
    let reached = descend(nodes, 0, components, false);
    let at = |k: int| ancestor(nodes, reached.node, reached.count - k);
    path::components_are_well_formed(path);
    assert(no_prefix(components));
    lemma_descend(nodes, node_drivers, 0, components, false);
    lemma_descend_ends(nodes, node_drivers, 0, components);
    assert forall|k: int| 0 < k <= reached.count implies {
        &&& 0 < #[trigger] at(k) < nodes.len()
        &&& nodes[at(k)].parent == at(k - 1)
        &&& components[k - 1] matches path::ComponentView::Normal(text) ==> nodes[at(k)].name
            == text
        &&& components[k - 1] is RootDir ==> nodes[at(k)].name == seq!['/']
    } by {
        let first = components.take(k);
        lemma_descend_take(nodes, node_drivers, 0, components, k);
        assert(no_prefix(first)) by {
            assert forall|i: int| 0 <= i < first.len() implies !((#[trigger] first[i]) is Prefix) by {
                assert(first[i] == components[i]);
            }
        }
        lemma_descend_name(nodes, node_drivers, 0, first);
        lemma_descend(nodes, node_drivers, 0, first, false);
        assert(first[k - 1] == components[k - 1]);
        assert(is_deep(nodes, 0, 0));
        assert(is_deep(nodes, at(k), 0 + k));
        lemma_ancestor_adds(nodes, reached.node, reached.count - k, 1);
        assert(ancestor(nodes, at(k), 1) == ancestor(nodes, nodes[at(k)].parent, 0));
    }
    if reached.count < components.len() {
        lemma_find_child(
            nodes,
            nodes[reached.node].nodes,
            path::component_name(components[reached.count], false),
        );
    }
}

/// Each step up leads to the parent.
pub proof fn each_step_up_leads_to_the_parent(nodes: Seq<NodeView>, at: int, steps: int)
    requires
        steps >= 0,
    ensures
        ancestor(nodes, at, 0) == at,
        ancestor(nodes, at, steps + 1) == nodes[ancestor(nodes, at, steps)].parent,
{
    lemma_ancestor_adds(nodes, at, steps, 1);
    let above = ancestor(nodes, at, steps);
    assert(ancestor(nodes, above, 1) == ancestor(nodes, nodes[above].parent, 0));
}

/// A chain of new nodes hangs below its node as that node's last child, each new node
/// below the one before, and all else is as it was.
pub proof fn a_chain_hangs_below_its_node(
    nodes: Seq<NodeView>,
    index: int,
    driver_index: int,
    names: Seq<Seq<char>>,
)
    requires
        0 <= index < nodes.len(),
        names.len() > 0,
    ensures
        ({
            let n = nodes.len() as int;
            let all = with_chain(nodes, index, driver_index, names);
            &&& all.len() == n + names.len()
            &&& forall|i: int|
                0 <= i < n && i != index ==> #[trigger] all[i] == nodes[i]
            &&& all[index].nodes == nodes[index].nodes.push(n)
            &&& all[index].name == nodes[index].name
            &&& all[index].parent == nodes[index].parent
            &&& all[index].driver_index == nodes[index].driver_index
            &&& all[index].node_type == nodes[index].node_type
            &&& all[index].unlisted == nodes[index].unlisted
            &&& forall|i: int|
                0 <= i < names.len() ==> {
                    &&& all[n + i].name == #[trigger] names[i]
                    &&& all[n + i].driver_index == driver_index
                    &&& all[n + i].node_type == NodeType::Unknown
                    &&& i == 0 ==> all[n + i].parent == index
                    &&& i > 0 ==> all[n + i].parent == n + i - 1 && all[n + i - 1].nodes
                        == seq![n + i]
                }
            &&& all.last().nodes.len() == 0
        }),
{
}

/// Nodes are followed down wherever the components are the root and names.
pub proof fn names_can_be_followed(
    nodes: Seq<NodeView>,
    at: int,
    components: Seq<path::ComponentView>,
    had_prefix: bool,
)
    requires
        forall|i: int|
            0 <= i < components.len() ==> !((#[trigger] components[i]) is CurDir)
                && !(components[i] is ParentDir),
    ensures
        can_descend(nodes, at, components, had_prefix),
    decreases components.len(),
{
    if components.len() > 0 {
        let rest = components.drop_first();
        assert forall|i: int| 0 <= i < rest.len() implies !((#[trigger] rest[i]) is CurDir)
            && !(rest[i] is ParentDir) by {
            assert(rest[i] == components[i + 1]);
        }
        assert(!(components[0] is CurDir) && !(components[0] is ParentDir));
        if let Some(child) = find_child(
            nodes,
            nodes[at].nodes,
            path::component_name(components[0], had_prefix),
        ) {
            names_can_be_followed(nodes, child, rest, had_prefix || components[0] is Prefix);
        }
    }
}

/// A node is seen as it is, with all its children.
pub proof fn a_node_is_seen_as_it_is(node: Node)
    ensures
        node@.name == node.name@,
        node@.node_type == node.node_type,
        node@.driver_index == node.driver_index,
        node@.parent == node.parent,
        node@.unlisted == node.unlisted,
        node@.nodes.len() == node.nodes@.len(),
        forall|i: int| 0 <= i < node.nodes@.len() ==> #[trigger] node@.nodes[i] == node.nodes@[i],
{
}

/// What fetching a listing does to the nodes. Those that are not concerned stay as they
/// are. The node itself becomes a directory where nothing was known of it, and has no more
/// to fetch. Its children become what the listing says they are, and keep their own
/// children, drivers, and whether those are to be fetched. What is new hangs below it, and
/// of a new directory nothing is fetched yet.
pub proof fn fetching_a_listing_concerns_one_directory(
    nodes: Seq<NodeView>,
    node_drivers: int,
    at: int,
    dirs: Seq<Seq<char>>,
    files: Seq<Seq<char>>,
)
    requires
        is_tree(nodes, node_drivers),
        0 <= at < nodes.len(),
    ensures
        ({
            let all = relisted(nodes, at, dirs, files);
            let n = nodes.len() as int;
            &&& all.len() >= n
            &&& forall|i: int|
                0 <= i < n ==> {
                    let old_node = nodes[i];
                    let node = #[trigger] all[i];
                    let is_child = i != 0 && old_node.parent == at;
                    let unfetched = old_node.node_type == NodeType::Unknown || old_node.unlisted;
                    &&& node.name == old_node.name
                    &&& node.parent == old_node.parent
                    &&& node.driver_index == old_node.driver_index
                    &&& i != at ==> node.nodes == old_node.nodes
                    &&& i == at ==> {
                        &&& !node.unlisted
                        &&& node.node_type == if old_node.node_type == NodeType::Unknown {
                            NodeType::Directory
                        } else {
                            old_node.node_type
                        }
                    }
                    &&& i != at && (!is_child || !(files.contains(old_node.name) || dirs.contains(
                        old_node.name,
                    ))) ==> node == old_node
                    &&& i != at && is_child && files.contains(old_node.name) ==> node.node_type
                        == NodeType::File && node.unlisted == unfetched
                    &&& i != at && is_child && !files.contains(old_node.name) && dirs.contains(
                        old_node.name,
                    ) ==> node.node_type == NodeType::Directory && node.unlisted == unfetched
                }
            &&& forall|i: int|
                n <= i < all.len() ==> {
                    let node = #[trigger] all[i];
                    &&& node.parent == at
                    &&& node.driver_index == -1
                    &&& node.nodes.len() == 0
                    &&& node.node_type == NodeType::File || (node.node_type == NodeType::Directory
                        && node.unlisted)
                }
        }),
{
    if at > 0 {
        assert(nodes[at].parent < at);
    }
}

} // verus!
