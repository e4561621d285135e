//! The steps of a load.
//!
//! Loading of urls works in the following way:
//! 1. We start with the full url, for example ftp://dir/foo.zip/test/bar.mod
//! 2. We try to load the url as it is. Here this fails, as only ftp://dir/foo.zip
//!    is present on the server.
//! 3. We search backwards until a file is loaded (here ftp://dir/foo.zip).
//! 4. As the full path is not resolved yet, we search backwards again from this
//!    point, now with foo.zip, which here finds test/bar.mod. This is repeated until
//!    the load is done.
//!
//! Drivers are asked by the caller: a [`Loader`] says which driver to ask for
//! what, and takes the answer.
use crate::path;
use crate::path::Component;
use crate::tree;
use crate::tree::NodeType;
use crate::tree::VfsState;
use crate::types;
use crate::types::FilesDirs;
use crate::types::LoadStatus;
use crate::types::RecvMsg;
use vstd::prelude::*;

verus! {

/// What a load does next.
#[derive(PartialEq, Eq, Structural, Debug, Clone, Copy)]
pub enum LoadState {
    /// Look for the path among the nodes.
    FindNode,
    /// Look for a driver that opens the start of the path.
    FindDriverUrl,
    /// Look for a driver that opens the data that was loaded.
    FindDriverData,
    /// Ask the driver for the rest of the path.
    LoadFromDriver,
    /// Load from a node that is in the tree.
    LoadFromNode,
    /// No driver opens the path: the load has ended without a message.
    UnsupportedPath,
    /// The load has ended with a message.
    Done,
}

/// A load under way.
pub struct Loader {
    pub state: LoadState,
    /// The components of the path.
    pub path_components: Vec<Component>,
    /// How many of them are known to be in the tree.
    pub component_index: usize,
    /// The node that they lead to.
    pub node_index: usize,
    /// The driver that is asked, or -1.
    pub driver_index: isize,
    pub had_prefix: bool,
    /// The data of the file that was loaded last.
    pub data: Option<Box<[u8]>>,
    /// Where the part of the path starts that is tried next: how many components
    /// lead to the node where the driver is mounted that is asked.
    pub base: usize,
    /// Where the part of the path ends that is tried next.
    pub end: usize,
    /// The driver that is tried next.
    pub next_driver: usize,
}

/// What a [`Loader`] stands for.
#[verifier::ext_equal]
pub struct LoaderView {
    pub state: LoadState,
    pub components: Seq<path::ComponentView>,
    pub component_index: int,
    pub node_index: int,
    pub driver_index: int,
    pub had_prefix: bool,
    pub data: Option<Seq<u8>>,
    pub base: int,
    pub end: int,
    pub next_driver: int,
}

impl View for Loader {
    type V = LoaderView;

    open spec fn view(&self) -> LoaderView {
        LoaderView {
            state: self.state,
            components: path::views(self.path_components@),
            component_index: self.component_index as int,
            node_index: self.node_index as int,
            driver_index: self.driver_index as int,
            had_prefix: self.had_prefix,
            data: match self.data {
                Some(data) => Some(data@),
                None => None,
            },
            base: self.base as int,
            end: self.end as int,
            next_driver: self.next_driver as int,
        }
    }
}

impl LoaderView {
    /// The part of the path that is tried next.
    pub open spec fn candidate(self) -> Seq<path::ComponentView> {
        self.components.subrange(self.base, self.end)
    }

    /// The part of the path that is not known to be in the tree.
    pub open spec fn rest(self) -> Seq<path::ComponentView> {
        self.components.skip(self.component_index)
    }

    /// The path is one, everything that is named by a place is there, and while
    /// something is looked for there is something to try.
    pub open spec fn wf(self, nodes: int, node_drivers: int, drivers: int) -> bool {
        &&& path::well_formed(self.components)
        &&& 0 <= self.base <= self.component_index <= self.components.len()
        &&& self.base <= self.end <= self.components.len()
        &&& 0 <= self.node_index < nodes
        &&& -1 <= self.driver_index < node_drivers
        &&& self.state == LoadState::FindNode ==> self.driver_index == -1
        &&& self.state == LoadState::FindDriverUrl ==> {
            &&& self.base < self.end
            &&& self.next_driver == 0 || 0 <= self.next_driver < drivers
        }
        &&& self.state == LoadState::FindDriverData ==> {
            &&& self.data is Some
            &&& self.base == self.end
            &&& self.next_driver == 0 || 0 <= self.next_driver < drivers
        }
        &&& self.state == LoadState::LoadFromDriver ==> {
            &&& self.base < self.end || self.end == self.components.len()
            &&& self.driver_index == -1 ==> self.components.len() > 0
        }
        &&& self.state == LoadState::LoadFromNode ==> {
            &&& self.component_index == self.components.len()
            &&& self.end == self.components.len()
        }
    }

    /// The load has found where it stands in the tree, and goes on from a driver that
    /// is yet to be found.
    pub open spec fn needs_driver(self) -> bool {
        &&& self.state == LoadState::LoadFromDriver || self.state == LoadState::LoadFromNode
        &&& self.driver_index == -1
        &&& self.components.len() > 0
    }

    /// How far a load is from its end: the state, the part of the path that is not
    /// resolved, whether a driver for data is looked for, the part that is tried
    /// next, and the drivers that are left to try.
    pub open spec fn distance(self, drivers: int) -> (int, int, int, int, int) {
        (
            if self.needs_driver() {
                3
            } else {
                match self.state {
                    LoadState::FindNode => 4,
                    LoadState::FindDriverUrl => 2,
                    LoadState::FindDriverData => 1,
                    LoadState::LoadFromDriver => 1,
                    LoadState::LoadFromNode => 1,
                    LoadState::UnsupportedPath => 0,
                    LoadState::Done => 0,
                }
            },
            self.components.len() - self.base,
            if self.state == LoadState::FindDriverData {
                1
            } else {
                0
            },
            self.end - self.base,
            drivers - self.next_driver,
        )
    }

    /// The load has come nearer to its end.
    pub open spec fn is_nearer(self, before: LoaderView, drivers: int) -> bool {
        decreases_to!(
            before.distance(drivers).0,
            before.distance(drivers).1,
            before.distance(drivers).2,
            before.distance(drivers).3,
            before.distance(drivers).4 => self.distance(drivers).0,
            self.distance(drivers).1,
            self.distance(drivers).2,
            self.distance(drivers).3,
            self.distance(drivers).4
        )
    }
}

/// Where a load stands after a step, the nodes that there are then, and the message
/// that the step ends in.
pub struct Next {
    pub loader: LoaderView,
    pub nodes: Seq<tree::NodeView>,
    pub reply: Option<types::RecvMsgView>,
}

/// A load as it starts.
pub open spec fn new_load(path: Seq<char>) -> LoaderView {
    LoaderView {
        state: LoadState::FindNode,
        components: path::path_components(path),
        component_index: 0,
        node_index: 0,
        driver_index: -1,
        had_prefix: false,
        data: None,
        base: 0,
        end: path::path_components(path).len() as int,
        next_driver: 0,
    }
}

/// Where a load stands once it has followed its path down the tree. Where all of
/// it is there, it loads from the node. Where a part is there, a driver is asked for
/// the rest. Where nothing is, a driver is looked for.
pub open spec fn node_found(l: LoaderView, nodes: Seq<tree::NodeView>) -> LoaderView {
    let reached = tree::descend(nodes, l.node_index, l.rest(), l.had_prefix);
    let resolved = l.component_index + reached.count;
    LoaderView {
        state: if resolved == l.components.len() {
            LoadState::LoadFromNode
        } else if resolved == 0 {
            LoadState::FindDriverUrl
        } else {
            LoadState::LoadFromDriver
        },
        component_index: resolved,
        node_index: reached.node,
        had_prefix: reached.had_prefix,
        base: 0,
        end: l.components.len() as int,
        next_driver: 0,
        ..l
    }
}

/// A node above another, and how many components of the path lead to it.
pub struct NodeAbove {
    pub node: int,
    pub count: int,
}

/// The nearest node at or above `at` that has a driver of its own, and how many of
/// the first `count` components of the path lead to it.
pub open spec fn nearest_driver(nodes: Seq<tree::NodeView>, at: int, count: int) -> Option<
    NodeAbove,
>
    decreases count,
{
    if count <= 0 {
        None
    } else if nodes[at].driver_index != -1 {
        Some(NodeAbove { node: at, count })
    } else {
        nearest_driver(nodes, nodes[at].parent, count - 1)
    }
}

/// Where a load stands once it has looked for a driver on the way to its node: the
/// nearest one is asked. Where there is none, one is looked for by the whole path.
pub open spec fn driver_found(l: LoaderView, nodes: Seq<tree::NodeView>) -> LoaderView {
    match nearest_driver(nodes, l.node_index, l.component_index) {
        Some(above) => LoaderView {
            driver_index: nodes[above.node].driver_index,
            base: above.count,
            end: l.components.len() as int,
            next_driver: 0,
            ..l
        },
        None => LoaderView {
            state: LoadState::FindDriverUrl,
            base: 0,
            end: l.components.len() as int,
            next_driver: 0,
            ..l
        },
    }
}

/// The node that the path leads to up to the end of the part that is tried, once it
/// is in the tree.
pub open spec fn candidate_node(l: LoaderView, nodes: Seq<tree::NodeView>) -> int {
    if l.end <= l.component_index {
        tree::ancestor(nodes, l.node_index, l.component_index - l.end)
    } else {
        nodes.len() + (l.end - l.component_index) - 1
    }
}

/// The tree with the part of the path that is tried.
pub open spec fn candidate_tree(l: LoaderView, nodes: Seq<tree::NodeView>) -> Seq<tree::NodeView> {
    if l.end <= l.component_index {
        nodes
    } else {
        tree::with_chain(
            nodes,
            l.node_index,
            -1,
            path::component_names(l.components.subrange(l.component_index, l.end), false),
        )
    }
}

/// Where a load stands once the part of the path that was tried is in the tree.
pub open spec fn candidate_added(l: LoaderView, nodes: Seq<tree::NodeView>) -> LoaderView {
    if l.end <= l.component_index {
        l
    } else {
        LoaderView { component_index: l.end, node_index: candidate_node(l, nodes), ..l }
    }
}

/// The part of the path that is tried can be put into the tree: all of its
/// components that are not there have names, and the nodes can still be counted.
pub open spec fn can_add_candidate(l: LoaderView, nodes: int) -> bool {
    &&& forall|i: int|
        l.component_index <= i < l.end ==> path::is_named(#[trigger] l.components[i])
    &&& l.component_index < l.end ==> nodes + (l.end - l.component_index) <= u32::MAX + 1
}

/// What is in the directory that the part of the path that is tried leads to has yet
/// to be fetched.
pub open spec fn needs_listing(l: LoaderView, nodes: Seq<tree::NodeView>) -> bool {
    l.component_index < l.end || tree::needs_listing(nodes[candidate_node(l, nodes)])
}

/// The tree with a driver at a node. What is below the node is yet to be fetched
/// from it.
pub open spec fn with_driver(
    nodes: Seq<tree::NodeView>,
    at: int,
    driver_index: int,
) -> Seq<tree::NodeView> {
    nodes.update(at, tree::NodeView { driver_index, unlisted: true, ..nodes[at] })
}

/// Where a load stands once a driver is mounted where the part of the path ends that
/// was tried, where `node_drivers` were mounted before: the driver is asked for all of
/// the rest.
pub open spec fn driver_mounted(l: LoaderView, node_drivers: int) -> LoaderView {
    LoaderView {
        state: LoadState::LoadFromDriver,
        driver_index: node_drivers,
        base: l.end,
        end: l.components.len() as int,
        next_driver: 0,
        ..l
    }
}

/// Where a load stands once a driver did not open the part of the path that was
/// tried: the next driver is tried on it, and after the last one all of them on a
/// part that is shorter by one component, until nothing is left of it.
pub open spec fn next_candidate(l: LoaderView, drivers: int) -> LoaderView {
    if l.next_driver + 1 < drivers {
        LoaderView { next_driver: l.next_driver + 1, ..l }
    } else if drivers > 0 && l.base + 1 < l.end {
        LoaderView { end: l.end - 1, next_driver: 0, ..l }
    } else {
        LoaderView { state: LoadState::UnsupportedPath, end: l.base, next_driver: 0, ..l }
    }
}

/// Where a load stands once the driver had nothing at the path it was asked for:
/// it is asked for a path that is shorter by one component, until none is left.
pub open spec fn backed_off(l: LoaderView) -> LoaderView {
    if l.base + 1 < l.end {
        LoaderView { end: l.end - 1, ..l }
    } else {
        LoaderView { state: LoadState::UnsupportedPath, end: l.base, ..l }
    }
}

/// The step that follows once a driver did or did not open the part of the path that
/// was tried, where there were this many mounted drivers before.
pub open spec fn url_answered(
    l: LoaderView,
    nodes: Seq<tree::NodeView>,
    node_drivers: int,
    drivers: int,
    opened: bool,
) -> Next {
    if opened {
        Next {
            loader: driver_mounted(candidate_added(l, nodes), node_drivers),
            nodes: with_driver(candidate_tree(l, nodes), candidate_node(l, nodes), node_drivers),
            reply: None,
        }
    } else {
        Next { loader: next_candidate(l, drivers), nodes, reply: None }
    }
}

/// The step that follows once a driver did or did not open the data of the load: where
/// none does, the load ends in the data.
pub open spec fn data_answered(
    l: LoaderView,
    nodes: Seq<tree::NodeView>,
    node_drivers: int,
    drivers: int,
    opened: bool,
) -> Next {
    if opened {
        Next {
            loader: driver_mounted(l, node_drivers),
            nodes: with_driver(nodes, candidate_node(l, nodes), node_drivers),
            reply: None,
        }
    } else if l.next_driver + 1 < drivers {
        Next {
            loader: LoaderView { next_driver: l.next_driver + 1, ..l },
            nodes,
            reply: None,
        }
    } else {
        Next {
            loader: LoaderView { state: LoadState::Done, data: None, ..l },
            nodes,
            reply: Some(types::RecvMsgView::ReadDone(l.data->0)),
        }
    }
}

/// The tree once a directory has been reached at a node: its listing is fetched where
/// that has not been done before.
pub open spec fn directory_tree(
    nodes: Seq<tree::NodeView>,
    at: int,
    fetch: bool,
    listed: types::FilesDirsView,
) -> Seq<tree::NodeView> {
    if fetch {
        tree::relisted(nodes, at, listed.dirs, listed.files)
    } else {
        nodes
    }
}

/// The step that follows once the mounted driver said what it has at the path that it
/// was asked for: a directory, and the data of the full path, end the load. Other
/// data is put into the tree, and a driver is looked for that opens it.
pub open spec fn driver_answered(
    l: LoaderView,
    nodes: Seq<tree::NodeView>,
    status: types::LoadStatusView,
    listed: types::FilesDirsView,
) -> Next {
    let at = candidate_node(l, nodes);
    match status {
        types::LoadStatusView::Directory => {
            let after = directory_tree(
                candidate_tree(l, nodes),
                at,
                needs_listing(l, nodes),
                listed,
            );
            Next {
                loader: LoaderView { state: LoadState::Done, ..candidate_added(l, nodes) },
                nodes: after,
                reply: Some(types::RecvMsgView::Directory(tree::listing(after, at))),
            }
        },
        types::LoadStatusView::Data(data) => if l.end == l.components.len() {
            Next {
                loader: LoaderView { state: LoadState::Done, ..l },
                nodes,
                reply: Some(types::RecvMsgView::ReadDone(data)),
            }
        } else {
            Next {
                loader: LoaderView {
                    state: LoadState::FindDriverData,
                    data: Some(data),
                    base: l.end,
                    next_driver: 0,
                    ..candidate_added(l, nodes)
                },
                nodes: candidate_tree(l, nodes),
                reply: None,
            }
        },
        types::LoadStatusView::NotFound => Next { loader: backed_off(l), nodes, reply: None },
    }
}

/// The step that follows once a driver said what it has at the path that leads from
/// it to the load's node. Whatever it is, it is what the load ends in.
pub open spec fn node_answered(
    l: LoaderView,
    nodes: Seq<tree::NodeView>,
    status: Option<types::LoadStatusView>,
    listed: types::FilesDirsView,
) -> Next {
    let loader = LoaderView { state: LoadState::Done, ..l };
    match status {
        Some(types::LoadStatusView::Directory) => {
            let after = directory_tree(
                nodes,
                l.node_index,
                tree::needs_listing(nodes[l.node_index]),
                listed,
            );
            Next {
                loader,
                nodes: after,
                reply: Some(types::RecvMsgView::Directory(tree::listing(after, l.node_index))),
            }
        },
        Some(types::LoadStatusView::Data(data)) => Next {
            loader,
            nodes,
            reply: Some(types::RecvMsgView::ReadDone(data)),
        },
        _ => Next { loader, nodes, reply: Some(types::RecvMsgView::NotFound) },
    }
}

/// What a load needs from outside for its next step, and the step that takes it.
pub enum Action {
    /// Nothing, for [`Loader::find_node`].
    FindNode,
    /// Nothing, for [`Loader::find_node_driver`].
    FindNodeDriver,
    /// What a driver to try makes of a url, where there is one, for
    /// [`Loader::find_driver_url`].
    OpenUrl { driver: Option<usize>, url: String },
    /// What a driver to try makes of the data of the load, where there is one, for
    /// [`Loader::find_driver_data`].
    OpenData { driver: Option<usize> },
    /// What a mounted driver has at a path, and the listing of a directory there
    /// where `list` says so, for [`Loader::load_from_driver`].
    Load { mounted: usize, path: String, list: bool },
    /// What a mounted driver, where there is one, has at a path, and the listing of a
    /// directory there where `list` says so, for [`Loader::load_from_node`].
    LoadNode { nearest: Option<usize>, path: String, list: bool },
    /// Nothing: the load has ended.
    End,
}

/// More drivers do no harm to a tree.
proof fn lemma_more_drivers(nodes: Seq<tree::NodeView>, fewer: int, more: int)
    requires
        tree::is_tree(nodes, fewer),
        fewer <= more,
    ensures
        tree::is_tree(nodes, more),
{
    assert forall|i: int| 0 <= i < nodes.len() implies -1 <= (#[trigger] nodes[i]).driver_index < more by {}
}

/// A driver at a node keeps a tree.
pub proof fn driver_keeps_tree(nodes: Seq<tree::NodeView>, at: int, mounted: int)
    requires
        tree::is_tree(nodes, mounted),
        0 <= at < nodes.len(),
    ensures
        tree::is_tree(with_driver(nodes, at, mounted), mounted + 1),
{
    lemma_more_drivers(nodes, mounted, mounted + 1);
    assert(nodes[0].driver_index < mounted);
    tree::same_shape_keeps_tree(nodes, with_driver(nodes, at, mounted), mounted + 1);
}

/// The part of the path that is tried keeps a tree, and leads to a node of it.
pub proof fn candidate_keeps_tree(l: LoaderView, nodes: Seq<tree::NodeView>, node_drivers: int)
    requires
        tree::is_tree(nodes, node_drivers),
        0 <= l.node_index < nodes.len(),
        l.end <= l.components.len(),
        0 <= l.component_index,
    ensures
        tree::is_tree(candidate_tree(l, nodes), node_drivers),
        0 <= candidate_node(l, nodes) < candidate_tree(l, nodes).len(),
        candidate_tree(l, nodes).len() == nodes.len() + if l.component_index < l.end {
            l.end - l.component_index
        } else {
            0
        },
{
    if l.end <= l.component_index {
        tree::lemma_ancestor(nodes, node_drivers, l.node_index, l.component_index - l.end);
    } else {
        tree::chain_keeps_tree(
            nodes,
            node_drivers,
            l.node_index,
            path::component_names(l.components.subrange(l.component_index, l.end), false),
        );
    }
}

pub proof fn lemma_nearest_driver(nodes: Seq<tree::NodeView>, node_drivers: int, at: int, count: int)
    requires
        tree::is_tree(nodes, node_drivers),
        0 <= at < nodes.len(),
    ensures
        nearest_driver(nodes, at, count) matches Some(above) ==> {
            &&& 0 <= above.node <= at
            &&& 0 < above.count <= count
            &&& 0 <= nodes[above.node].driver_index < node_drivers
        },
    decreases count,
{
    if count > 0 && nodes[at].driver_index == -1 {
        assert(0 <= nodes[at].parent <= at);
        lemma_nearest_driver(nodes, node_drivers, nodes[at].parent, count - 1);
    }
}

impl Loader {
    pub open spec fn wf<D>(&self, vfs: &VfsState<D>) -> bool {
        self@.wf(
            vfs.nodes@.len() as int,
            vfs.node_drivers@.len() as int,
            vfs.drivers@.len() as int,
        )
    }

    /// Starts a load.
    pub fn new(path: &str) -> (loader: Loader)
        ensures
            loader@ == new_load(path@),
            forall|nodes: int, node_drivers: int, drivers: int|
                nodes > 0 && node_drivers >= 0 ==> #[trigger] loader@.wf(nodes, node_drivers, drivers),
    {
        let path_components = path::components(path);
        proof {
            path::components_are_well_formed(path@);
            assert(path::views(path_components@).len() == path_components@.len());
        }
        let end: usize = path_components.len();
        Loader {
            state: LoadState::FindNode,
            path_components,
            component_index: 0,
            node_index: 0,
            driver_index: -1,
            had_prefix: false,
            data: None,
            base: 0,
            end,
            next_driver: 0,
        }
    }

    /// Tells whether every component that [`Loader::find_node`] will look at has a
    /// name.
    pub fn can_find_node<D>(&self, vfs: &VfsState<D>) -> (b: bool)
        requires
            vfs.wf(),
            self.wf(vfs),
        ensures
            b == tree::can_descend(
                vfs.tree(),
                self.node_index as int,
                self@.rest(),
                self.had_prefix,
            ),
    {
        let ghost nodes = vfs.tree();
        let ghost cs = self@.components;
        let mut at: usize = self.node_index;
        let mut had_prefix: bool = self.had_prefix;
        let mut i: usize = self.component_index;
        while i < self.path_components.len()
            invariant
                vfs.wf(),
                nodes == vfs.tree(),
                cs == path::views(self.path_components@),
                i <= cs.len(),
                at < nodes.len(),
                tree::can_descend(
                    vfs.tree(),
                    self.node_index as int,
                    self@.rest(),
                    self.had_prefix,
                ) == tree::can_descend(nodes, at as int, cs.skip(i as int), had_prefix),
            decreases cs.len() - i,
        {
            let ghost rest = cs.skip(i as int);
            assert(rest[0] == self.path_components@[i as int]@);
            assert(rest.drop_first() =~= cs.skip(i + 1));
            match &self.path_components[i] {
                Component::CurDir => {
                    return false;
                },
                Component::ParentDir => {
                    return false;
                },
                _ => {},
            }
            let name: String = path::get_component_name(&self.path_components[i], &mut had_prefix);
            match tree::find_entry(vfs, at, name.as_str()) {
                Some(entry) => {
                    at = entry;
                },
                None => {
                    return true;
                },
            }
            i = i + 1;
        }
        true
    }

    /// Searches the tree for the path.
    pub fn find_node<D>(&mut self, vfs: &VfsState<D>)
        requires
            vfs.wf(),
            old(self).wf(vfs),
            old(self).state == LoadState::FindNode,
            tree::can_descend(
                vfs.tree(),
                old(self).node_index as int,
                old(self)@.rest(),
                old(self).had_prefix,
            ),
        ensures
            final(self)@ == node_found(old(self)@, vfs.tree()),
            final(self).wf(vfs),
            final(self)@.is_nearer(old(self)@, vfs.drivers@.len() as int),
    {
        let ghost nodes = vfs.tree();
        let ghost cs = self@.components;
        let ghost reached = tree::descend(
            nodes,
            self.node_index as int,
            self@.rest(),
            self.had_prefix,
        );
        let start: usize = self.component_index;
        let mut at: usize = self.node_index;
        let mut had_prefix: bool = self.had_prefix;
        let mut i: usize = start;
        let mut found: bool = true;
        while found && i < self.path_components.len()
            invariant
                vfs.wf(),
                nodes == vfs.tree(),
                cs == path::views(self.path_components@),
                start <= i <= cs.len(),
                at < nodes.len(),
                found ==> ({
                    let rest = tree::descend(nodes, at as int, cs.skip(i as int), had_prefix);
                    &&& reached.node == rest.node
                    &&& reached.count == i - start + rest.count
                    &&& reached.had_prefix == rest.had_prefix
                }),
                found ==> tree::can_descend(nodes, at as int, cs.skip(i as int), had_prefix),
                !found ==> i < cs.len() && reached == (tree::Reached {
                    node: at as int,
                    count: i - start,
                    had_prefix,
                }),
            decreases cs.len() - i + if found { 1int } else { 0int },
        {
            let ghost rest = cs.skip(i as int);
            assert(rest[0] == self.path_components@[i as int]@);
            assert(rest.drop_first() =~= cs.skip(i + 1));
            let name: String = path::get_component_name(&self.path_components[i], &mut had_prefix);
            match tree::find_entry(vfs, at, name.as_str()) {
                Some(entry) => {
                    at = entry;
                    i = i + 1;
                },
                None => {
                    found = false;
                },
            }
        }
        self.node_index = at;
        self.component_index = i;
        self.had_prefix = had_prefix;
        self.base = 0;
        self.end = self.path_components.len();
        self.next_driver = 0;
        self.state = if found {
            // The whole path is in the tree
            LoadState::LoadFromNode
        } else if i == 0 {
            // Nothing is mounted yet, so there must be a driver first
            LoadState::FindDriverUrl
        } else {
            LoadState::LoadFromDriver
        };
        assert(self@ =~= node_found(old(self)@, nodes));
    }

    /// Searches backwards from the load's node for a driver to ask. The node may have
    /// none of its own, as a file in an archive has none: then it is that of the
    /// nearest node above which has one. Where no node on the way has one, a driver is
    /// looked for by the whole path.
    pub fn find_node_driver<D>(&mut self, vfs: &VfsState<D>)
        requires
            vfs.wf(),
            old(self).wf(vfs),
            old(self)@.needs_driver(),
        ensures
            final(self)@ == driver_found(old(self)@, vfs.tree()),
            final(self).wf(vfs),
            !final(self)@.needs_driver(),
            final(self)@.is_nearer(old(self)@, vfs.drivers@.len() as int),
    {
        let ghost nodes = vfs.tree();
        proof {
            lemma_nearest_driver(
                nodes,
                vfs.node_drivers@.len() as int,
                self.node_index as int,
                self.component_index as int,
            );
        }
        let mut node_index: usize = self.node_index;
        let mut i: usize = self.component_index;
        while i > 0 && vfs.nodes[node_index].driver_index == -1
            invariant
                vfs.wf(),
                nodes == vfs.tree(),
                node_index < nodes.len(),
                i <= self.component_index,
                nearest_driver(nodes, self.node_index as int, self.component_index as int)
                    == nearest_driver(nodes, node_index as int, i as int),
            decreases i,
        {
            assert(nodes[node_index as int].driver_index == -1);
            assert(0 <= nodes[node_index as int].parent <= node_index);
            node_index = vfs.nodes[node_index].parent as usize;
            i = i - 1;
        }
        if i > 0 {
            assert(nodes[node_index as int].driver_index != -1);
            assert(nodes[node_index as int].driver_index < vfs.node_drivers@.len());
            self.driver_index = vfs.nodes[node_index].driver_index as isize;
            self.base = i;
        } else {
            self.state = LoadState::FindDriverUrl;
            self.base = 0;
        }
        self.end = self.path_components.len();
        self.next_driver = 0;
        assert(self@ =~= driver_found(old(self)@, nodes));
    }

    /// The part of the path that is tried next, as a path.
    pub fn candidate(&self) -> (path: String)
        requires
            self.base <= self.end <= self.path_components@.len(),
        ensures
            path@ == path::path_text(self@.candidate()),
    {
        path::path_of(&self.path_components, self.base, self.end)
    }

    /// Tells whether the part of the path that is tried can be put into the tree.
    pub fn can_add_candidate<D>(&self, vfs: &VfsState<D>) -> (b: bool)
        requires
            self.end <= self.path_components@.len(),
        ensures
            b == can_add_candidate(self@, vfs.nodes@.len() as int),
    {
        let limit: usize = 0xffff_ffff;
        let mut i: usize = self.component_index;
        while i < self.end
            invariant
                self.component_index <= i,
                self.component_index <= self.end ==> i <= self.end,
                self.end <= self.path_components@.len(),
                forall|k: int|
                    self.component_index <= k < i ==> path::is_named(
                        #[trigger] self@.components[k],
                    ) || k >= self.end,
            decreases self.end - i,
        {
            match &self.path_components[i] {
                Component::CurDir => {
                    assert(!path::is_named(self@.components[i as int]));
                    return false;
                },
                Component::ParentDir => {
                    assert(!path::is_named(self@.components[i as int]));
                    return false;
                },
                _ => {},
            }
            i = i + 1;
        }
        if self.end <= self.component_index {
            true
        } else {
            let count: usize = self.end - self.component_index;
            count - 1 <= limit && vfs.nodes.len() <= limit - (count - 1)
        }
    }

    /// Tells whether the listing of a directory at the part of the path that is tried
    /// is yet to be fetched.
    pub fn needs_listing<D>(&self, vfs: &VfsState<D>) -> (b: bool)
        requires
            vfs.wf(),
            self.wf(vfs),
        ensures
            b == needs_listing(self@, vfs.tree()),
    {
        if self.component_index < self.end {
            true
        } else {
            let at: usize = tree::node_above(vfs, self.node_index, self.component_index - self.end);
            assert(vfs.tree()[at as int] == vfs.nodes@[at as int]@);
            vfs.nodes[at].node_type == NodeType::Unknown || vfs.nodes[at].unlisted
        }
    }

    /// What the load needs next.
    pub fn next_action<D>(&self, vfs: &VfsState<D>) -> (action: Action)
        requires
            vfs.wf(),
            self.wf(vfs),
        ensures
            if self@.needs_driver() {
                action == Action::FindNodeDriver
            } else {
                match self.state {
                    LoadState::FindNode => action == Action::FindNode,
                    LoadState::FindDriverUrl => {
                        &&& action matches Action::OpenUrl { driver, url }
                        &&& driver == if vfs.drivers@.len() > 0 {
                            Some(self.next_driver)
                        } else {
                            None
                        }
                        &&& driver matches Some(driver) ==> driver < vfs.drivers@.len()
                        &&& url@ == path::path_text(self@.candidate())
                    },
                    LoadState::FindDriverData => {
                        &&& action matches Action::OpenData { driver }
                        &&& driver == if vfs.drivers@.len() > 0 {
                            Some(self.next_driver)
                        } else {
                            None
                        }
                        &&& driver matches Some(driver) ==> driver < vfs.drivers@.len()
                    },
                    LoadState::LoadFromDriver => {
                        &&& action matches Action::Load { mounted, path, list }
                        &&& mounted == self.driver_index
                        &&& mounted < vfs.node_drivers@.len()
                        &&& path@ == path::path_text(self@.candidate())
                        &&& list == needs_listing(self@, vfs.tree())
                    },
                    LoadState::LoadFromNode => {
                        &&& action matches Action::LoadNode { nearest, path, list }
                        &&& nearest is Some <==> self.driver_index != -1
                        &&& nearest matches Some(nearest) ==> nearest == self.driver_index
                            && nearest < vfs.node_drivers@.len()
                        &&& path@ == path::path_text(self@.candidate())
                        &&& list == tree::needs_listing(vfs.tree()[self.node_index as int])
                    },
                    LoadState::UnsupportedPath => action == Action::End,
                    LoadState::Done => action == Action::End,
                }
            },
    {
        let driver: Option<usize> = if vfs.drivers.len() > 0 {
            Some(self.next_driver)
        } else {
            None
        };
        match self.state {
            LoadState::FindNode => Action::FindNode,
            LoadState::FindDriverUrl => Action::OpenUrl { driver, url: self.candidate() },
            LoadState::FindDriverData => Action::OpenData { driver },
            LoadState::LoadFromDriver => {
                if self.driver_index < 0 {
                    Action::FindNodeDriver
                } else {
                    Action::Load {
                        mounted: self.driver_index as usize,
                        path: self.candidate(),
                        list: self.needs_listing(vfs),
                    }
                }
            },
            LoadState::LoadFromNode => {
                if self.driver_index < 0 && self.path_components.len() > 0 {
                    Action::FindNodeDriver
                } else {
                    let nearest: Option<usize> = if self.driver_index < 0 {
                        None
                    } else {
                        Some(self.driver_index as usize)
                    };
                    Action::LoadNode {
                        nearest,
                        path: self.candidate(),
                        list: self.needs_listing(vfs),
                    }
                }
            },
            LoadState::UnsupportedPath => Action::End,
            LoadState::Done => Action::End,
        }
    }

    /// Puts the part of the path that is tried into the tree, as far as it is not
    /// there, and gives the node that it leads to.
    fn add_candidate<D>(&mut self, vfs: &mut VfsState<D>) -> (at: usize)
        requires
            old(vfs).wf(),
            old(self).wf(old(vfs)),
            can_add_candidate(old(self)@, old(vfs).nodes@.len() as int),
        ensures
            at == candidate_node(old(self)@, old(vfs).tree()),
            at < final(vfs).nodes@.len(),
            final(self)@ == candidate_added(old(self)@, old(vfs).tree()),
            final(vfs).tree() == candidate_tree(old(self)@, old(vfs).tree()),
            final(vfs).node_drivers == old(vfs).node_drivers,
            final(vfs).drivers == old(vfs).drivers,
            final(vfs).wf(),
    {
        proof {
            candidate_keeps_tree(self@, vfs.tree(), vfs.node_drivers@.len() as int);
        }
        if self.end <= self.component_index {
            tree::node_above(vfs, self.node_index, self.component_index - self.end)
        } else {
            assert forall|i: int| self.component_index <= i < self.end implies path::is_named(
                #[trigger] self.path_components@[i]@,
            ) by {
                assert(path::is_named(old(self)@.components[i]));
            }
            let res = tree::add_path_to_vfs(
                vfs,
                self.node_index,
                -1,
                &self.path_components,
                self.component_index,
                self.end,
            );
            self.node_index = res.0;
            self.component_index = self.component_index + res.1;
            assert(self@ =~= candidate_added(old(self)@, old(vfs).tree()));
            res.0
        }
    }

    /// Takes what the driver at `next_driver` among those to try made of the part
    /// of the path that is tried: a driver to mount there, or nothing.
    pub fn find_driver_url<D>(&mut self, vfs: &mut VfsState<D>, created: Option<D>)
        requires
            old(vfs).wf(),
            old(self).wf(old(vfs)),
            old(self).state == LoadState::FindDriverUrl,
            created is Some ==> can_add_candidate(old(self)@, old(vfs).nodes@.len() as int) && old(
                vfs,
            ).node_drivers@.len() <= i32::MAX,
        ensures
            ({
                let next = url_answered(
                    old(self)@,
                    old(vfs).tree(),
                    old(vfs).node_drivers@.len() as int,
                    old(vfs).drivers@.len() as int,
                    created is Some,
                );
                &&& final(self)@ == next.loader
                &&& final(vfs).tree() == next.nodes
            }),
            final(vfs).node_drivers@ == match created {
                Some(driver) => old(vfs).node_drivers@.push(driver),
                None => old(vfs).node_drivers@,
            },
            final(vfs).drivers == old(vfs).drivers,
            final(vfs).wf(),
            final(self).wf(final(vfs)),
            final(self)@.is_nearer(old(self)@, old(vfs).drivers@.len() as int),
    {
        match created {
            Some(driver) => {
                // A driver is found, so it is mounted
                let ghost nodes = vfs.tree();
                let ghost mounted = vfs.node_drivers@.len() as int;
                let at: usize = self.add_candidate(vfs);
                let ghost added = vfs.tree();
                proof {
                    driver_keeps_tree(added, at as int, mounted);
                }
                self.driver_index = vfs.node_drivers.len() as isize;
                vfs.nodes[at].driver_index = vfs.node_drivers.len() as i32;
                vfs.nodes[at].unlisted = true;
                vfs.node_drivers.push(driver);
                self.base = self.end;
                self.end = self.path_components.len();
                self.next_driver = 0;
                self.state = LoadState::LoadFromDriver;
                assert(vfs.tree() =~~= with_driver(added, at as int, mounted));
                assert(self@ =~= driver_mounted(candidate_added(old(self)@, nodes), mounted));
            },
            None => {
                if vfs.drivers.len() > 0 && vfs.drivers.len() - self.next_driver > 1 {
                    self.next_driver = self.next_driver + 1;
                } else {
                    if vfs.drivers.len() > 0 && self.end - self.base > 1 {
                        self.end = self.end - 1;
                    } else {
                        self.state = LoadState::UnsupportedPath;
                        self.end = self.base;
                    }
                    self.next_driver = 0;
                }
                assert(self@ =~= next_candidate(old(self)@, vfs.drivers@.len() as int));
            },
        }
    }

    /// Takes what the driver at `next_driver` among those to try made of the data
    /// that was loaded: a driver to mount at its node, or nothing. Where no driver
    /// opens the data, it is what the load ends in.
    pub fn find_driver_data<D>(&mut self, vfs: &mut VfsState<D>, created: Option<D>) -> (msg: Option<
        RecvMsg,
    >)
        requires
            old(vfs).wf(),
            old(self).wf(old(vfs)),
            old(self).state == LoadState::FindDriverData,
            created is Some ==> old(vfs).node_drivers@.len() <= i32::MAX,
        ensures
            ({
                let next = data_answered(
                    old(self)@,
                    old(vfs).tree(),
                    old(vfs).node_drivers@.len() as int,
                    old(vfs).drivers@.len() as int,
                    created is Some,
                );
                &&& final(self)@ == next.loader
                &&& final(vfs).tree() == next.nodes
                &&& types::reply_view(msg) == next.reply
            }),
            final(vfs).node_drivers@ == match created {
                Some(driver) => old(vfs).node_drivers@.push(driver),
                None => old(vfs).node_drivers@,
            },
            msg is Some <==> final(self).state == LoadState::Done,
            final(vfs).drivers == old(vfs).drivers,
            final(vfs).wf(),
            final(self).wf(final(vfs)),
            final(self)@.is_nearer(old(self)@, old(vfs).drivers@.len() as int),
    {
        match created {
            Some(driver) => {
                let ghost nodes = vfs.tree();
                let ghost mounted = vfs.node_drivers@.len() as int;
                let at: usize = tree::node_above(vfs, self.node_index, self.component_index - self.end);
                proof {
                    driver_keeps_tree(nodes, at as int, mounted);
                }
                self.driver_index = vfs.node_drivers.len() as isize;
                vfs.nodes[at].driver_index = vfs.node_drivers.len() as i32;
                vfs.nodes[at].unlisted = true;
                vfs.node_drivers.push(driver);
                self.end = self.path_components.len();
                self.next_driver = 0;
                self.state = LoadState::LoadFromDriver;
                assert(vfs.tree() =~~= with_driver(nodes, at as int, mounted));
                assert(self@ =~= driver_mounted(old(self)@, mounted));
                None
            },
            None => {
                if vfs.drivers.len() > 0 && vfs.drivers.len() - self.next_driver > 1 {
                    self.next_driver = self.next_driver + 1;
                    None
                } else {
                    self.state = LoadState::Done;
                    match self.data.take() {
                        Some(data) => Some(RecvMsg::ReadDone(data)),
                        None => None,
                    }
                }
            },
        }
    }

    /// Takes what the mounted driver found at the path that is tried, and for a
    /// directory of which nothing was known its listing. A directory, and the data
    /// of the full path, are what the load ends in. Other data goes into the tree,
    /// and a driver is looked for that opens it.
    pub fn load_from_driver<D>(
        &mut self,
        vfs: &mut VfsState<D>,
        status: LoadStatus,
        listed: Option<FilesDirs>,
    ) -> (msg: Option<RecvMsg>)
        requires
            old(vfs).wf(),
            old(self).wf(old(vfs)),
            old(self).state == LoadState::LoadFromDriver,
            old(self).driver_index != -1,
            status is Directory ==> (listed is Some <==> needs_listing(
                old(self)@,
                old(vfs).tree(),
            )),
            status is Directory || (status is Data && old(self).end < old(
                self,
            ).path_components@.len()) ==> can_add_candidate(
                old(self)@,
                old(vfs).nodes@.len() as int,
            ),
            status is Directory ==> (listed matches Some(files_dirs) ==> candidate_tree(
                old(self)@,
                old(vfs).tree(),
            ).len() + files_dirs.dirs@.len() + files_dirs.files@.len() <= u32::MAX + 1),
        ensures
            ({
                let next = driver_answered(
                    old(self)@,
                    old(vfs).tree(),
                    status@,
                    types::listed_view(listed),
                );
                &&& final(self)@ == next.loader
                &&& final(vfs).tree() == next.nodes
                &&& types::reply_view(msg) == next.reply
            }),
            msg is Some <==> final(self).state == LoadState::Done,
            final(vfs).node_drivers == old(vfs).node_drivers,
            final(vfs).drivers == old(vfs).drivers,
            final(vfs).wf(),
            final(self).wf(final(vfs)),
            final(self)@.is_nearer(old(self)@, old(vfs).drivers@.len() as int),
    {
        match status {
            LoadStatus::Directory => {
                let at: usize = self.add_candidate(vfs);
                if let Some(files_dirs) = listed {
                    tree::list_directory(vfs, at, files_dirs);
                }
                self.state = LoadState::Done;
                Some(self.send_directory_for_node(vfs, at))
            },
            LoadStatus::Data(data) => {
                // The data of the full path is what was asked for
                if self.end == self.path_components.len() {
                    self.state = LoadState::Done;
                    Some(RecvMsg::ReadDone(data))
                } else {
                    self.add_candidate(vfs);
                    self.data = Some(data);
                    self.base = self.end;
                    self.next_driver = 0;
                    self.state = LoadState::FindDriverData;
                    None
                }
            },
            LoadStatus::NotFound => {
                if self.end - self.base > 1 {
                    self.end = self.end - 1;
                } else {
                    self.end = self.base;
                    self.state = LoadState::UnsupportedPath;
                }
                assert(self@ =~= backed_off(old(self)@));
                None
            },
        }
    }

    /// Takes what the driver that was found for the load's node has at the path that
    /// leads from it to the node, where there is one, and for a directory of which
    /// nothing was known its listing. Whatever it is, it is what the load ends in.
    pub fn load_from_node<D>(
        &mut self,
        vfs: &mut VfsState<D>,
        status: Option<LoadStatus>,
        listed: Option<FilesDirs>,
    ) -> (msg: RecvMsg)
        requires
            old(vfs).wf(),
            old(self).wf(old(vfs)),
            old(self).state == LoadState::LoadFromNode,
            status is Some <==> old(self).driver_index != -1,
            status == Some(LoadStatus::Directory) ==> (listed is Some <==> tree::needs_listing(
                old(vfs).tree()[old(self).node_index as int],
            )),
            status == Some(LoadStatus::Directory) ==> (listed matches Some(files_dirs) ==> old(
                vfs,
            ).nodes@.len() + files_dirs.dirs@.len() + files_dirs.files@.len() <= u32::MAX + 1),
        ensures
            ({
                let next = node_answered(
                    old(self)@,
                    old(vfs).tree(),
                    match status {
                        Some(status) => Some(status@),
                        None => None,
                    },
                    types::listed_view(listed),
                );
                &&& final(self)@ == next.loader
                &&& final(vfs).tree() == next.nodes
                &&& Some(msg@) == next.reply
            }),
            final(vfs).node_drivers == old(vfs).node_drivers,
            final(vfs).drivers == old(vfs).drivers,
            final(vfs).wf(),
            final(self).wf(final(vfs)),
            final(self)@.is_nearer(old(self)@, old(vfs).drivers@.len() as int),
    {
        let node_index: usize = self.node_index;
        self.state = LoadState::Done;
        match status {
            Some(LoadStatus::Directory) => {
                if let Some(files_dirs) = listed {
                    tree::list_directory(vfs, node_index, files_dirs);
                }
                self.send_directory_for_node(vfs, node_index)
            },
            Some(LoadStatus::Data(data)) => RecvMsg::ReadDone(data),
            Some(LoadStatus::NotFound) => RecvMsg::NotFound,
            None => RecvMsg::NotFound,
        }
    }

    /// The message that lists the directory at a node.
    pub fn send_directory_for_node<D>(&self, vfs: &VfsState<D>, node_index: usize) -> (msg: RecvMsg)
        requires
            vfs.wf(),
            node_index < vfs.nodes@.len(),
        ensures
            msg@ == types::RecvMsgView::Directory(tree::listing(vfs.tree(), node_index as int)),
    {
        RecvMsg::Directory(tree::list_node(vfs, node_index))
    }
}

proof fn lemma_load_ends(run: spec_fn(nat) -> LoaderView, drivers: int, i: nat)
    ensures
        exists|k: nat| !(#[trigger] run((k + 1) as nat)).is_nearer(run(k), drivers),
    decreases
            run(i).distance(drivers).0,
            run(i).distance(drivers).1,
            run(i).distance(drivers).2,
            run(i).distance(drivers).3,
            run(i).distance(drivers).4,
{
    if run((i + 1) as nat).is_nearer(run(i), drivers) {
        lemma_load_ends(run, drivers, (i + 1) as nat);
    }
}

/// No load goes on for ever: every step brings a load nearer to its end, and in
/// every endless row of loads there is one that is no nearer to its end than the
/// one before.
pub proof fn every_load_ends(run: spec_fn(nat) -> LoaderView, drivers: int)
    ensures
        exists|k: nat| !(#[trigger] run((k + 1) as nat)).is_nearer(run(k), drivers),
{
    lemma_load_ends(run, drivers, 0);
}

/// Every path that was added below the root, where no path of the same start was there,
/// is found again by a load of it, at the node that the addition gave.
pub proof fn an_added_path_is_found(path: Seq<char>, nodes: Seq<tree::NodeView>, node_drivers: int)
    requires
        tree::is_tree(nodes, node_drivers),
        path::path_components(path).len() > 0 ==> tree::find_child(
            nodes,
            nodes[0].nodes,
            path::component_name(path::path_components(path)[0], false),
        ) is None,
    ensures
        ({
            let components = path::path_components(path);
            let all = tree::with_chain(nodes, 0, -1, path::component_names(components, false));
            let l = node_found(new_load(path), all);
            &&& l.state == LoadState::LoadFromNode
            &&& l.component_index == components.len()
            &&& l.node_index == if components.len() == 0 {
                0
            } else {
                nodes.len() + components.len() - 1
            }
        }),
{
    let components = path::path_components(path);
    assert(new_load(path).rest() =~= components);
    if components.len() > 0 {
        tree::mounted_path_is_found(nodes, node_drivers, 0, -1, components);
    }
}

/// Of the drivers at a node and above it, the nearest is found: the node that has it lies
/// as many steps above as components of the path come behind it, and no node on the way
/// there has one. Where none is found, none of the nodes that the path leads along has
/// one.
pub proof fn the_nearest_driver_is_found(nodes: Seq<tree::NodeView>, at: int, count: int)
    ensures
        match nearest_driver(nodes, at, count) {
            Some(above) => {
                &&& 0 < above.count <= count
                &&& above.node == tree::ancestor(nodes, at, count - above.count)
                &&& nodes[above.node].driver_index != -1
                &&& forall|j: int|
                    0 <= j < count - above.count ==> nodes[#[trigger] tree::ancestor(
                        nodes,
                        at,
                        j,
                    )].driver_index == -1
            },
            None => forall|j: int|
                0 <= j < count ==> nodes[#[trigger] tree::ancestor(nodes, at, j)].driver_index
                    == -1,
        },
    decreases count,
{
    if count > 0 && nodes[at].driver_index == -1 {
        let parent = nodes[at].parent;
        the_nearest_driver_is_found(nodes, parent, count - 1);
        let nearer = match nearest_driver(nodes, at, count) {
            Some(above) => count - above.count,
            None => count,
        };
        assert forall|j: int| 0 <= j < nearer implies nodes[#[trigger] tree::ancestor(
            nodes,
            at,
            j,
        )].driver_index == -1 by {
            if j > 0 {
                assert(tree::ancestor(nodes, at, j) == tree::ancestor(nodes, parent, j - 1));
            }
        }
    }
}

/// What is told of a directory that a driver has where a part of the path ends. Where
/// that was not in the tree, it is told as the driver lists it. Where it was there and
/// nothing below it had been fetched, everything that the driver lists is told, and
/// nothing else but what was known. Where its listing had been fetched, what is known is
/// told.
pub proof fn a_directory_is_told_with_what_is_in_it(
    l: LoaderView,
    nodes: Seq<tree::NodeView>,
    node_drivers: int,
    drivers: int,
    listed: types::FilesDirsView,
)
    requires
        tree::is_tree(nodes, node_drivers),
        l.wf(nodes.len() as int, node_drivers, drivers),
    ensures
        ({
            let next = driver_answered(l, nodes, types::LoadStatusView::Directory, listed);
            let at = tree::ancestor(nodes, l.node_index, l.component_index - l.end);
            &&& next.loader.state == LoadState::Done
            &&& next.reply matches Some(types::RecvMsgView::Directory(told))
            &&& if l.component_index < l.end {
                told == listed
            } else {
                let node = nodes[at];
                let known = node.nodes;
                let is_file = |child: int|
                    listed.files.contains(nodes[child].name) || (nodes[child].node_type
                        == tree::NodeType::File && !listed.dirs.contains(nodes[child].name));
                let is_new = |name: Seq<char>|
                    forall|k: int| 0 <= k < known.len() ==> nodes[#[trigger] known[k]].name != name;
                if node.node_type == tree::NodeType::Unknown || node.unlisted {
                    &&& told.files == known.filter(is_file).map_values(|child: int| nodes[child].name)
                        + listed.files.filter(is_new)
                    &&& told.dirs == known.filter(|child: int| !is_file(child)).map_values(
                        |child: int| nodes[child].name,
                    ) + listed.dirs.filter(is_new)
                } else {
                    &&& told.files == known.filter(
                        |child: int| nodes[child].node_type == tree::NodeType::File,
                    ).map_values(|child: int| nodes[child].name)
                    &&& told.dirs == known.filter(
                        |child: int| nodes[child].node_type != tree::NodeType::File,
                    ).map_values(|child: int| nodes[child].name)
                }
            }
        }),
{
    let all = candidate_tree(l, nodes);
    let at = candidate_node(l, nodes);
    candidate_keeps_tree(l, nodes, node_drivers);
    if l.component_index < l.end {
        assert(all[at].nodes.len() == 0);
        tree::fetched_listing_is_listed(all, node_drivers, at, listed.dirs, listed.files);
    } else {
        tree::a_fetched_listing_is_added_to_what_was_known(
            nodes,
            node_drivers,
            at,
            listed.dirs,
            listed.files,
        );
        tree::a_listing_has_all_children(nodes, at);
    }
}

/// What is told of a directory at a load's node: everything that its driver lists, and
/// nothing else but what was known, where nothing below it had been fetched. Otherwise it
/// is what is known.
pub proof fn a_known_directory_is_told_with_what_is_in_it(
    l: LoaderView,
    nodes: Seq<tree::NodeView>,
    node_drivers: int,
    listed: types::FilesDirsView,
)
    requires
        tree::is_tree(nodes, node_drivers),
        0 <= l.node_index < nodes.len(),
    ensures
        ({
            let next = node_answered(
                l,
                nodes,
                Some(types::LoadStatusView::Directory),
                listed,
            );
            &&& next.loader.state == LoadState::Done
            &&& next.reply matches Some(types::RecvMsgView::Directory(told))
            &&& {
                let node = nodes[l.node_index];
                let known = node.nodes;
                let is_file = |child: int|
                    listed.files.contains(nodes[child].name) || (nodes[child].node_type
                        == tree::NodeType::File && !listed.dirs.contains(nodes[child].name));
                let is_new = |name: Seq<char>|
                    forall|k: int| 0 <= k < known.len() ==> nodes[#[trigger] known[k]].name != name;
                if node.node_type == tree::NodeType::Unknown || node.unlisted {
                    &&& told.files == known.filter(is_file).map_values(|child: int| nodes[child].name)
                        + listed.files.filter(is_new)
                    &&& told.dirs == known.filter(|child: int| !is_file(child)).map_values(
                        |child: int| nodes[child].name,
                    ) + listed.dirs.filter(is_new)
                } else {
                    &&& told.files == known.filter(
                        |child: int| nodes[child].node_type == tree::NodeType::File,
                    ).map_values(|child: int| nodes[child].name)
                    &&& told.dirs == known.filter(
                        |child: int| nodes[child].node_type != tree::NodeType::File,
                    ).map_values(|child: int| nodes[child].name)
                }
            }
        }),
{
    tree::a_fetched_listing_is_added_to_what_was_known(
        nodes,
        node_drivers,
        l.node_index,
        listed.dirs,
        listed.files,
    );
    tree::a_listing_has_all_children(nodes, l.node_index);
}

/// What follows from what a mounted driver has at the part of the path that it is asked
/// for. The data of the whole path ends the load. Data in the middle of it is kept, and
/// drivers are tried on it from the first. Where there is nothing, the driver is asked for
/// one component less, as long as one is left.
pub proof fn what_a_driver_has_decides_how_a_load_goes_on(
    l: LoaderView,
    nodes: Seq<tree::NodeView>,
    data: Seq<u8>,
    listed: types::FilesDirsView,
)
    ensures
        ({
            let next = driver_answered(l, nodes, types::LoadStatusView::Data(data), listed);
            if l.end == l.components.len() {
                &&& next.reply == Some(types::RecvMsgView::ReadDone(data))
                &&& next.loader.state == LoadState::Done
                &&& next.nodes == nodes
            } else {
                &&& next.reply is None
                &&& next.loader.state == LoadState::FindDriverData
                &&& next.loader.data == Some(data)
                &&& next.loader.base == l.end && next.loader.end == l.end
                &&& next.loader.next_driver == 0
                &&& next.loader.components == l.components
            }
        }),
        ({
            let next = driver_answered(l, nodes, types::LoadStatusView::NotFound, listed);
            &&& next.reply is None
            &&& next.nodes == nodes
            &&& if l.end - l.base > 1 {
                &&& next.loader.state == l.state
                &&& next.loader.end == l.end - 1 && next.loader.base == l.base
                &&& next.loader.driver_index == l.driver_index
                &&& next.loader.components == l.components
            } else {
                next.loader.state == LoadState::UnsupportedPath
            }
        }),
{
}

/// What is left of a path can be put into the tree wherever its components are the root
/// and names and the nodes can still be counted, and only there.
pub proof fn names_can_be_put_into_the_tree(l: LoaderView, nodes: int)
    requires
        l.component_index < l.end,
    ensures
        can_add_candidate(l, nodes) <==> {
            &&& nodes + (l.end - l.component_index) <= 0x1_0000_0000
            &&& forall|i: int|
                l.component_index <= i < l.end ==> !((#[trigger] l.components[i]) is CurDir)
                    && !(l.components[i] is ParentDir)
        },
{
    assert forall|i: int| l.component_index <= i < l.end implies path::is_named(
        #[trigger] l.components[i],
    ) == (!(l.components[i] is CurDir) && !(l.components[i] is ParentDir)) by {}
}

/// A load sees the whole of its path, and starts at the root with nothing found.
pub proof fn a_load_starts_at_the_root(path: Seq<char>)
    ensures
        ({
            let l = new_load(path);
            &&& l.components == path::path_components(path)
            &&& l.rest() == path::path_components(path)
            &&& l.candidate() == path::path_components(path)
            &&& l.node_index == 0 && l.component_index == 0 && l.base == 0
            &&& l.driver_index == -1 && l.data is None && l.state == LoadState::FindNode
        }),
{
    assert(new_load(path).rest() =~= path::path_components(path));
    assert(new_load(path).candidate() =~= path::path_components(path));
}

/// A driver that is mounted is put at its node, and nothing below it counts as fetched,
/// whatever was fetched before. No other node is concerned.
pub proof fn a_new_driver_is_asked_anew(nodes: Seq<tree::NodeView>, at: int, driver_index: int)
    requires
        0 <= at < nodes.len(),
    ensures
        ({
            let all = with_driver(nodes, at, driver_index);
            &&& all.len() == nodes.len()
            &&& forall|i: int| 0 <= i < nodes.len() && i != at ==> #[trigger] all[i] == nodes[i]
            &&& all[at].driver_index == driver_index
            &&& all[at].unlisted
            &&& all[at].name == nodes[at].name
            &&& all[at].parent == nodes[at].parent
            &&& all[at].nodes == nodes[at].nodes
            &&& all[at].node_type == nodes[at].node_type
        }),
{
}

} // verus!
