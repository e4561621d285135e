//! What a whole load comes to, whatever the drivers are.
//!
//! A path is resolved from its end: of its parts the longest that a driver opens is
//! mounted, and of the rest the longest part that the driver has something at is
//! loaded. Where a file ends before the path does, the file is opened in its turn,
//! and the rest of the path is resolved in it. Where a driver is mounted on the way
//! already, the path is resolved from there.
use crate::loader;
use crate::loader::LoadState;
use crate::path;
use crate::tree;
use crate::types;
use vstd::prelude::*;

verus! {

/// A driver that is mounted, and what it was mounted from.
pub enum Mount {
    Url { driver: int, url: Seq<path::ComponentView> },
    Data { driver: int, data: Seq<u8> },
}

/// What the drivers answer: how many there are to try, which of them opens which url
/// and which data, what a mounted one has at which path, and what is in a directory
/// there.
pub struct World {
    pub drivers: int,
    pub opens_url: spec_fn(int, Seq<path::ComponentView>) -> bool,
    pub opens_data: spec_fn(int, Seq<u8>) -> bool,
    pub status: spec_fn(Mount, Seq<path::ComponentView>) -> types::LoadStatusView,
    pub list: spec_fn(Mount, Seq<path::ComponentView>) -> types::FilesDirsView,
}

/// What a path resolves to.
pub enum Outcome {
    /// The data of a file.
    Data(Seq<u8>),
    /// A directory of a mounted driver.
    Directory { mount: Mount, path: Seq<path::ComponentView> },
    /// Nothing.
    Unsupported,
}

/// What a path resolves to, where the drivers from `driver` on are left to try on its
/// first `end` components, and all of them on fewer.
pub open spec fn resolve_url(
    w: World,
    path: Seq<path::ComponentView>,
    end: int,
    driver: int,
) -> Outcome
    decreases end, w.drivers - driver,
{
    if end <= 0 || w.drivers <= 0 {
        Outcome::Unsupported
    } else if (w.opens_url)(driver, path.take(end)) {
        resolve_in(
            w,
            Mount::Url { driver, url: path.take(end) },
            path.skip(end),
            path.len() - end,
        )
    } else if driver + 1 < w.drivers {
        resolve_url(w, path, end, driver + 1)
    } else {
        resolve_url(w, path, end - 1, 0)
    }
}

/// What a path resolves to in a mounted driver, which is asked for its first `end`
/// components, and then for fewer.
pub open spec fn resolve_in(
    w: World,
    mount: Mount,
    path: Seq<path::ComponentView>,
    end: int,
) -> Outcome
    decreases path.len(), 0int, end,
{
    match (w.status)(mount, path.take(end)) {
        types::LoadStatusView::Directory => Outcome::Directory { mount, path: path.take(end) },
        types::LoadStatusView::Data(data) => if 0 < end < path.len() {
            resolve_data(w, data, path.skip(end), 0)
        } else {
            Outcome::Data(data)
        },
        types::LoadStatusView::NotFound => if end > 1 {
            resolve_in(w, mount, path, end - 1)
        } else {
            Outcome::Unsupported
        },
    }
}

/// What a path resolves to in the data of a file, where the drivers from `driver` on
/// are left to try on the data: where none opens it, it is the data itself.
pub open spec fn resolve_data(
    w: World,
    data: Seq<u8>,
    path: Seq<path::ComponentView>,
    driver: int,
) -> Outcome
    decreases path.len(), 1int, w.drivers - driver,
{
    if driver >= w.drivers {
        Outcome::Data(data)
    } else if (w.opens_data)(driver, data) {
        resolve_in(w, Mount::Data { driver, data }, path, path.len() as int)
    } else {
        resolve_data(w, data, path, driver + 1)
    }
}

/// A load under way, the nodes and the mounted drivers that there are, and the
/// messages that the load has sent.
#[verifier::ext_equal]
pub struct Run {
    pub loader: loader::LoaderView,
    pub nodes: Seq<tree::NodeView>,
    pub mounts: Seq<Mount>,
    pub sent: Seq<types::RecvMsgView>,
}

impl Run {
    pub open spec fn wf(self, w: World) -> bool {
        &&& w.drivers >= 0
        &&& tree::is_tree(self.nodes, self.mounts.len() as int)
        &&& self.loader.wf(self.nodes.len() as int, self.mounts.len() as int, w.drivers)
    }

    /// The load has not ended.
    pub open spec fn is_open(self) -> bool {
        self.loader.state != LoadState::Done && self.loader.state != LoadState::UnsupportedPath
    }

    /// The driver that the load asks.
    pub open spec fn mount(self) -> Mount {
        self.mounts[self.loader.driver_index]
    }
}

/// A load of a path as it starts.
pub open spec fn start(path: Seq<char>, nodes: Seq<tree::NodeView>, mounts: Seq<Mount>) -> Run {
    Run { loader: loader::new_load(path), nodes, mounts, sent: seq![] }
}

/// The run after a step, where a driver was mounted or none.
pub open spec fn stepped(run: Run, next: loader::Next, mounted: Option<Mount>) -> Run {
    Run {
        loader: next.loader,
        nodes: next.nodes,
        mounts: match mounted {
            Some(mount) => run.mounts.push(mount),
            None => run.mounts,
        },
        sent: match next.reply {
            Some(reply) => run.sent.push(reply),
            None => run.sent,
        },
    }
}

/// The step of a load that has not ended, as the functions of [`loader::Loader`] take
/// it with what the drivers answer.
pub open spec fn step(w: World, run: Run) -> Run {
    let l = run.loader;
    let mounted = run.mounts.len() as int;
    if l.state == LoadState::FindNode {
        Run { loader: loader::node_found(l, run.nodes), ..run }
    } else if l.needs_driver() {
        Run { loader: loader::driver_found(l, run.nodes), ..run }
    } else if l.state == LoadState::FindDriverUrl {
        let opened = w.drivers > 0 && (w.opens_url)(l.next_driver, l.candidate());
        stepped(
            run,
            loader::url_answered(l, run.nodes, mounted, w.drivers, opened),
            if opened {
                Some(Mount::Url { driver: l.next_driver, url: l.candidate() })
            } else {
                None
            },
        )
    } else if l.state == LoadState::FindDriverData {
        let opened = w.drivers > 0 && (w.opens_data)(l.next_driver, l.data->0);
        stepped(
            run,
            loader::data_answered(l, run.nodes, mounted, w.drivers, opened),
            if opened {
                Some(Mount::Data { driver: l.next_driver, data: l.data->0 })
            } else {
                None
            },
        )
    } else {
        let status = (w.status)(run.mount(), l.candidate());
        let listed = (w.list)(run.mount(), l.candidate());
        if l.state == LoadState::LoadFromDriver {
            stepped(run, loader::driver_answered(l, run.nodes, status, listed), None)
        } else {
            let answer = if l.driver_index == -1 {
                None
            } else {
                Some(status)
            };
            stepped(run, loader::node_answered(l, run.nodes, answer, listed), None)
        }
    }
}

pub proof fn lemma_directory(
    nodes: Seq<tree::NodeView>,
    node_drivers: int,
    at: int,
    fetch: bool,
    listed: types::FilesDirsView,
)
    requires
        tree::is_tree(nodes, node_drivers),
        0 <= at < nodes.len(),
    ensures
        tree::is_tree(loader::directory_tree(nodes, at, fetch, listed), node_drivers),
        tree::grew_unmounted(nodes, loader::directory_tree(nodes, at, fetch, listed)),
{
    if fetch {
        tree::relisting_keeps_tree(nodes, node_drivers, at, listed.dirs, listed.files);
        tree::relisting_grows(nodes, at, listed.dirs, listed.files);
    } else {
        lemma_grew_itself(nodes);
    }
}

proof fn lemma_grew_itself(nodes: Seq<tree::NodeView>)
    ensures
        tree::grew_unmounted(nodes, nodes),
{
}

pub proof fn lemma_candidate_grows(l: loader::LoaderView, nodes: Seq<tree::NodeView>)
    requires
        0 <= l.node_index < nodes.len(),
    ensures
        tree::grew_unmounted(nodes, loader::candidate_tree(l, nodes)),
{
    if l.end <= l.component_index {
        lemma_grew_itself(nodes);
    } else {
        tree::chain_grows(
            nodes,
            l.node_index,
            path::component_names(l.components.subrange(l.component_index, l.end), false),
        );
    }
}

/// Nodes that are a tree, and a load that is valid in it, and nearer to its end.
spec fn is_step(w: World, run: Run, next: Run) -> bool {
    &&& tree::is_tree(next.nodes, next.mounts.len() as int)
    &&& next.loader.wf(next.nodes.len() as int, next.mounts.len() as int, w.drivers)
    &&& next.loader.is_nearer(run.loader, w.drivers)
}

proof fn lemma_find_step(w: World, run: Run)
    requires
        run.wf(w),
        run.loader.state == LoadState::FindNode || run.loader.needs_driver(),
    ensures
        is_step(w, run, step(w, run)),
{
    let l = run.loader;
    let mounted = run.mounts.len() as int;
    if l.state == LoadState::FindNode {
        tree::lemma_descend(run.nodes, mounted, l.node_index, l.rest(), l.had_prefix);
    } else {
        loader::lemma_nearest_driver(run.nodes, mounted, l.node_index, l.component_index);
    }
}

proof fn lemma_open_step(w: World, run: Run)
    requires
        run.wf(w),
        run.loader.state == LoadState::FindDriverUrl || run.loader.state
            == LoadState::FindDriverData,
    ensures
        is_step(w, run, step(w, run)),
{
    let l = run.loader;
    let mounted = run.mounts.len() as int;
    loader::candidate_keeps_tree(l, run.nodes, mounted);
    loader::driver_keeps_tree(
        loader::candidate_tree(l, run.nodes),
        loader::candidate_node(l, run.nodes),
        mounted,
    );
}

proof fn lemma_driver_step(w: World, run: Run)
    requires
        run.wf(w),
        run.loader.state == LoadState::LoadFromDriver,
        !run.loader.needs_driver(),
    ensures
        is_step(w, run, step(w, run)),
{
    let l = run.loader;
    let mounted = run.mounts.len() as int;
    let listed = (w.list)(run.mount(), l.candidate());
    let added = loader::candidate_tree(l, run.nodes);
    let at = loader::candidate_node(l, run.nodes);
    let fetch = loader::needs_listing(l, run.nodes);
    loader::candidate_keeps_tree(l, run.nodes, mounted);
    lemma_directory(added, mounted, at, fetch, listed);
    lemma_candidate_grows(l, run.nodes);
}

proof fn lemma_node_step(w: World, run: Run)
    requires
        run.wf(w),
        run.loader.state == LoadState::LoadFromNode,
        !run.loader.needs_driver(),
    ensures
        is_step(w, run, step(w, run)),
{
    let l = run.loader;
    let listed = (w.list)(run.mount(), l.candidate());
    let fetch = tree::needs_listing(run.nodes[l.node_index]);
    lemma_directory(run.nodes, run.mounts.len() as int, l.node_index, fetch, listed);
}

/// A step keeps the load valid and the nodes a tree, and brings the load nearer to its
/// end.
pub proof fn every_step_comes_nearer(w: World, run: Run)
    requires
        run.wf(w),
        run.is_open(),
    ensures
        step(w, run).wf(w),
        step(w, run).loader.is_nearer(run.loader, w.drivers),
{
    let l = run.loader;
    if l.state == LoadState::FindNode || l.needs_driver() {
        lemma_find_step(w, run);
    } else if l.state == LoadState::FindDriverUrl || l.state == LoadState::FindDriverData {
        lemma_open_step(w, run);
    } else if l.state == LoadState::LoadFromDriver {
        lemma_driver_step(w, run);
    } else {
        lemma_node_step(w, run);
    }
}

/// A load that has come to its end.
pub open spec fn finished(w: World, run: Run) -> Run
    decreases
            run.loader.distance(w.drivers).0,
            run.loader.distance(w.drivers).1,
            run.loader.distance(w.drivers).2,
            run.loader.distance(w.drivers).3,
            run.loader.distance(w.drivers).4,
{
    if run.wf(w) && run.is_open() {
        proof {
            every_step_comes_nearer(w, run);
        }
        finished(w, step(w, run))
    } else {
        run
    }
}

/// A load as it starts is valid.
pub proof fn lemma_start(
    w: World,
    path: Seq<char>,
    nodes: Seq<tree::NodeView>,
    mounts: Seq<Mount>,
)
    requires
        w.drivers >= 0,
        tree::is_tree(nodes, mounts.len() as int),
    ensures
        start(path, nodes, mounts).wf(w),
        tree::no_prefix(path::path_components(path)),
        start(path, nodes, mounts).loader.rest() == path::path_components(path),
{
    path::components_are_well_formed(path);
    assert(nodes[0].driver_index < mounts.len());
    assert(start(path, nodes, mounts).loader.rest() =~= path::path_components(path));
}

proof fn lemma_one_message(w: World, run: Run)
    requires
        run.wf(w),
        run.is_open(),
        run.sent.len() == 0,
    ensures
        ({
            let end = finished(w, run);
            &&& end.wf(w)
            &&& !end.is_open()
            &&& end.sent.len() == if end.loader.state == LoadState::Done {
                1int
            } else {
                0int
            }
        }),
    decreases
            run.loader.distance(w.drivers).0,
            run.loader.distance(w.drivers).1,
            run.loader.distance(w.drivers).2,
            run.loader.distance(w.drivers).3,
            run.loader.distance(w.drivers).4,
{
    every_step_comes_nearer(w, run);
    let next = step(w, run);
    if next.is_open() {
        lemma_one_message(w, next);
    }
}

/// Every load of every path ends, whatever is in the tree and whatever the drivers
/// answer, and by then it has sent at most one message: one where it is done, none
/// where the path is unsupported.
pub proof fn a_load_ends_with_at_most_one_message(
    w: World,
    path: Seq<char>,
    nodes: Seq<tree::NodeView>,
    mounts: Seq<Mount>,
)
    requires
        w.drivers >= 0,
        tree::is_tree(nodes, mounts.len() as int),
    ensures
        ({
            let end = finished(w, start(path, nodes, mounts));
            &&& !end.is_open()
            &&& end.sent.len() <= 1
            &&& end.sent.len() == 1 <==> end.loader.state == LoadState::Done
        }),
{
    lemma_start(w, path, nodes, mounts);
    lemma_one_message(w, start(path, nodes, mounts));
}

/// Drivers that nodes have now and did not have before are mounted ones.
pub open spec fn mounted_only(
    a: Seq<tree::NodeView>,
    b: Seq<tree::NodeView>,
    node_drivers: int,
) -> bool {
    forall|i: int|
        0 <= i < a.len() && (#[trigger] b[i]).driver_index != a[i].driver_index ==> 0
            <= b[i].driver_index < node_drivers
}

/// A step only adds to the nodes and to the mounted drivers.
pub proof fn every_step_only_adds(w: World, run: Run)
    requires
        run.wf(w),
        run.is_open(),
    ensures
        tree::grew(run.nodes, step(w, run).nodes),
        mounted_only(run.nodes, step(w, run).nodes, step(w, run).mounts.len() as int),
        run.mounts.is_prefix_of(step(w, run).mounts),
        run.mounts.len() <= step(w, run).mounts.len(),
{
    let l = run.loader;
    let mounted = run.mounts.len() as int;
    let next = step(w, run);
    loader::candidate_keeps_tree(l, run.nodes, mounted);
    lemma_candidate_grows(l, run.nodes);
    lemma_grew_itself(run.nodes);
    let at = loader::candidate_node(l, run.nodes);
    let added = loader::candidate_tree(l, run.nodes);
    assert(run.mounts =~= next.mounts.take(mounted));
    if l.state == LoadState::FindNode || l.needs_driver() {
    } else if l.state == LoadState::FindDriverUrl {
        let after = loader::with_driver(added, at, mounted);
        assert(tree::grew(added, after));
        tree::growth_is_transitive(run.nodes, added, after);
    } else if l.state == LoadState::FindDriverData {
        assert(tree::grew(run.nodes, loader::with_driver(run.nodes, at, mounted)));
    } else {
        let listed = (w.list)(run.mount(), l.candidate());
        let fetch = loader::needs_listing(l, run.nodes);
        lemma_directory(added, mounted, at, fetch, listed);
        let after = loader::directory_tree(added, at, fetch, listed);
        tree::growth_is_transitive(run.nodes, added, after);
        lemma_directory(
            run.nodes,
            mounted,
            l.node_index,
            tree::needs_listing(run.nodes[l.node_index]),
            listed,
        );
    }
}

proof fn lemma_only_adds(w: World, run: Run)
    requires
        run.wf(w),
    ensures
        ({
            let end = finished(w, run);
            &&& end.wf(w)
            &&& tree::grew(run.nodes, end.nodes)
            &&& mounted_only(run.nodes, end.nodes, end.mounts.len() as int)
            &&& run.mounts.is_prefix_of(end.mounts)
        }),
    decreases
            run.loader.distance(w.drivers).0,
            run.loader.distance(w.drivers).1,
            run.loader.distance(w.drivers).2,
            run.loader.distance(w.drivers).3,
            run.loader.distance(w.drivers).4,
{
    if run.is_open() {
        every_step_comes_nearer(w, run);
        every_step_only_adds(w, run);
        let next = step(w, run);
        let end = finished(w, run);
        lemma_only_adds(w, next);
        tree::growth_is_transitive(run.nodes, next.nodes, end.nodes);
        assert forall|i: int|
            0 <= i < run.nodes.len() && (#[trigger] end.nodes[i]).driver_index
                != run.nodes[i].driver_index implies 0 <= end.nodes[i].driver_index
            < end.mounts.len() by {
            assert(next.nodes[i].name == run.nodes[i].name);
            if end.nodes[i].driver_index == next.nodes[i].driver_index {
                assert(0 <= next.nodes[i].driver_index < next.mounts.len());
            }
        }
        assert(run.mounts =~= end.mounts.take(run.mounts.len() as int)) by {
            assert forall|i: int| 0 <= i < run.mounts.len() implies run.mounts[i] == end.mounts[i] by {
                assert(run.mounts[i] == next.mounts[i]);
                assert(next.mounts[i] == end.mounts[i]);
            }
        }
    } else {
        lemma_grew_itself(run.nodes);
        assert(run.mounts =~= run.mounts.take(run.mounts.len() as int));
    }
}

/// A load keeps the tree one and only adds to it: every node keeps its place, name and
/// parent, its children come first among those that it has then, and a driver that it
/// has then and had not before is a mounted one. Mounted drivers keep their places.
pub proof fn a_load_only_adds_to_the_tree(
    w: World,
    path: Seq<char>,
    nodes: Seq<tree::NodeView>,
    mounts: Seq<Mount>,
)
    requires
        w.drivers >= 0,
        tree::is_tree(nodes, mounts.len() as int),
    ensures
        ({
            let end = finished(w, start(path, nodes, mounts));
            &&& tree::is_tree(end.nodes, end.mounts.len() as int)
            &&& tree::grew(nodes, end.nodes)
            &&& mounted_only(nodes, end.nodes, end.mounts.len() as int)
            &&& mounts.is_prefix_of(end.mounts)
        }),
{
    lemma_start(w, path, nodes, mounts);
    lemma_only_adds(w, start(path, nodes, mounts));
}

/// These messages tell of this outcome.
pub open spec fn tells(sent: Seq<types::RecvMsgView>, outcome: Outcome) -> bool {
    match outcome {
        Outcome::Data(data) => sent == seq![types::RecvMsgView::ReadDone(data)],
        Outcome::Directory { mount, path } => sent.len() == 1 && sent[0] is Directory,
        Outcome::Unsupported => sent.len() == 0,
    }
}

/// What a load that asks drivers is to end in.
pub open spec fn expected(w: World, run: Run) -> Outcome {
    let l = run.loader;
    let rest = l.components.skip(l.base);
    if l.state == LoadState::FindDriverUrl {
        resolve_url(w, rest, l.end - l.base, l.next_driver)
    } else if l.state == LoadState::FindDriverData {
        resolve_data(w, l.data->0, rest, l.next_driver)
    } else {
        resolve_in(w, run.mount(), rest, l.end - l.base)
    }
}

/// The load asks drivers, and may go from one to the next.
pub open spec fn is_searching(l: loader::LoaderView) -> bool {
    ||| l.state == LoadState::FindDriverUrl
    ||| l.state == LoadState::FindDriverData
    ||| l.state == LoadState::LoadFromDriver && l.driver_index != -1
}

/// A step changes nothing in what a load is to end in, and the last one tells it.
proof fn lemma_expected(w: World, run: Run)
    requires
        run.wf(w),
        is_searching(run.loader),
        run.sent.len() == 0,
    ensures
        ({
            let next = step(w, run);
            if next.is_open() {
                &&& is_searching(next.loader)
                &&& next.sent.len() == 0
                &&& expected(w, next) == expected(w, run)
            } else {
                tells(next.sent, expected(w, run))
            }
        }),
{
    let l = run.loader;
    let end = l.end - l.base;
    let rest = l.components.skip(l.base);
    assert(l.candidate() =~= rest.take(end));
    assert(l.components.skip(l.end) =~= rest.skip(end));
    let next = step(w, run);
    if l.state == LoadState::FindDriverUrl {
        reveal_with_fuel(resolve_url, 3);
    } else if l.state == LoadState::FindDriverData {
        reveal_with_fuel(resolve_data, 3);
        if !next.is_open() {
            assert(next.sent =~= seq![types::RecvMsgView::ReadDone(l.data->0)]);
        }
    } else {
        reveal_with_fuel(resolve_in, 2);
        if let types::LoadStatusView::Data(data) = (w.status)(run.mount(), l.candidate()) {
            if !next.is_open() {
                assert(next.sent =~= seq![types::RecvMsgView::ReadDone(data)]);
            }
        }
    }
}

proof fn lemma_resolved(w: World, run: Run)
    requires
        run.wf(w),
        is_searching(run.loader),
        run.sent.len() == 0,
    ensures
        tells(finished(w, run).sent, expected(w, run)),
    decreases
            run.loader.distance(w.drivers).0,
            run.loader.distance(w.drivers).1,
            run.loader.distance(w.drivers).2,
            run.loader.distance(w.drivers).3,
            run.loader.distance(w.drivers).4,
{
    every_step_comes_nearer(w, run);
    lemma_expected(w, run);
    let next = step(w, run);
    if next.is_open() {
        lemma_resolved(w, next);
    } else {
        assert(finished(w, next) == next);
    }
}

/// The nearest driver on the way that a path leads down the tree.
pub open spec fn driver_on_the_way(
    components: Seq<path::ComponentView>,
    nodes: Seq<tree::NodeView>,
) -> Option<loader::NodeAbove> {
    let reached = tree::descend(nodes, 0, components, false);
    loader::nearest_driver(nodes, reached.node, reached.count)
}

/// The load once it has found where it stands in the tree, and whom to ask.
pub open spec fn placed(
    path: Seq<char>,
    nodes: Seq<tree::NodeView>,
    mounts: Seq<Mount>,
) -> Run {
    let components = path::path_components(path);
    let reached = tree::descend(nodes, 0, components, false);
    let found = loader::LoaderView {
        component_index: reached.count,
        node_index: reached.node,
        had_prefix: reached.had_prefix,
        ..loader::new_load(path)
    };
    Run {
        loader: match loader::nearest_driver(nodes, reached.node, reached.count) {
            Some(above) => loader::LoaderView {
                state: if reached.count == components.len() {
                    LoadState::LoadFromNode
                } else {
                    LoadState::LoadFromDriver
                },
                driver_index: nodes[above.node].driver_index,
                base: above.count,
                ..found
            },
            None => loader::LoaderView { state: LoadState::FindDriverUrl, ..found },
        },
        nodes,
        mounts,
        sent: seq![],
    }
}

/// A load of a path that is not empty first finds where it stands.
pub proof fn lemma_placed(
    w: World,
    path: Seq<char>,
    nodes: Seq<tree::NodeView>,
    mounts: Seq<Mount>,
)
    requires
        w.drivers >= 0,
        tree::is_tree(nodes, mounts.len() as int),
        path::path_components(path).len() > 0,
    ensures
        placed(path, nodes, mounts).wf(w),
        finished(w, start(path, nodes, mounts)) == finished(w, placed(path, nodes, mounts)),
{
    let first = start(path, nodes, mounts);
    lemma_start(w, path, nodes, mounts);
    every_step_comes_nearer(w, first);
    let second = step(w, first);
    let components = path::path_components(path);
    let reached = tree::descend(nodes, 0, components, false);
    tree::lemma_descend(nodes, mounts.len() as int, 0, components, false);
    let third = placed(path, nodes, mounts);
    assert(finished(w, first) == finished(w, second));
    if reached.count == 0 {
        assert(second =~= third);
    } else {
        assert(second.loader.needs_driver());
        every_step_comes_nearer(w, second);
        assert(step(w, second) =~= third);
        assert(finished(w, second) == finished(w, third));
    }
}

/// A load of a path on whose way no driver is mounted ends in what the path resolves
/// to, whatever else is in the tree and whatever was loaded before: as it does where
/// nothing is mounted at all.
pub proof fn load_ends_in_what_the_path_resolves_to(
    w: World,
    path: Seq<char>,
    nodes: Seq<tree::NodeView>,
    mounts: Seq<Mount>,
)
    requires
        w.drivers >= 0,
        tree::is_tree(nodes, mounts.len() as int),
        path::path_components(path).len() > 0,
        driver_on_the_way(path::path_components(path), nodes) is None,
    ensures
        ({
            let components = path::path_components(path);
            tells(
                finished(w, start(path, nodes, mounts)).sent,
                resolve_url(w, components, components.len() as int, 0),
            )
        }),
{
    let components = path::path_components(path);
    lemma_placed(w, path, nodes, mounts);
    assert(components.skip(0) =~= components);
    lemma_resolved(w, placed(path, nodes, mounts));
}

/// A load of a path on whose way a driver is mounted, where not all of the path is in
/// the tree, ends in what the rest of the path resolves to in the nearest one.
pub proof fn load_goes_on_from_the_nearest_driver(
    w: World,
    path: Seq<char>,
    nodes: Seq<tree::NodeView>,
    mounts: Seq<Mount>,
)
    requires
        w.drivers >= 0,
        tree::is_tree(nodes, mounts.len() as int),
        driver_on_the_way(path::path_components(path), nodes) is Some,
        tree::descend(nodes, 0, path::path_components(path), false).count < path::path_components(
            path,
        ).len(),
    ensures
        ({
            let components = path::path_components(path);
            let above = driver_on_the_way(components, nodes)->0;
            tells(
                finished(w, start(path, nodes, mounts)).sent,
                resolve_in(
                    w,
                    mounts[nodes[above.node].driver_index],
                    components.skip(above.count),
                    components.len() - above.count,
                ),
            )
        }),
{
    let reached = tree::descend(nodes, 0, path::path_components(path), false);
    tree::lemma_descend(nodes, mounts.len() as int, 0, path::path_components(path), false);
    lemma_placed(w, path, nodes, mounts);
    loader::lemma_nearest_driver(nodes, mounts.len() as int, reached.node, reached.count);
    lemma_resolved(w, placed(path, nodes, mounts));
}

/// A load of a path that is all in the tree ends in what the nearest driver on the way
/// has at what leads from it to the path's node.
pub proof fn load_of_a_known_path_asks_the_nearest_driver(
    w: World,
    path: Seq<char>,
    nodes: Seq<tree::NodeView>,
    mounts: Seq<Mount>,
)
    requires
        w.drivers >= 0,
        tree::is_tree(nodes, mounts.len() as int),
        driver_on_the_way(path::path_components(path), nodes) is Some,
        tree::descend(nodes, 0, path::path_components(path), false).count == path::path_components(
            path,
        ).len(),
    ensures
        ({
            let components = path::path_components(path);
            let above = driver_on_the_way(components, nodes)->0;
            let mount = mounts[nodes[above.node].driver_index];
            let sent = finished(w, start(path, nodes, mounts)).sent;
            match (w.status)(mount, components.skip(above.count)) {
                types::LoadStatusView::Data(data) => sent == seq![
                    types::RecvMsgView::ReadDone(data),
                ],
                types::LoadStatusView::Directory => sent.len() == 1 && sent[0] is Directory,
                types::LoadStatusView::NotFound => sent == seq![types::RecvMsgView::NotFound],
            }
        }),
{
    let components = path::path_components(path);
    let reached = tree::descend(nodes, 0, components, false);
    tree::lemma_descend(nodes, mounts.len() as int, 0, components, false);
    loader::lemma_nearest_driver(nodes, mounts.len() as int, reached.node, reached.count);
    lemma_placed(w, path, nodes, mounts);
    let run = placed(path, nodes, mounts);
    let l = run.loader;
    assert(l.candidate() =~= components.skip(l.base));
    every_step_comes_nearer(w, run);
    let next = step(w, run);
    assert(finished(w, run) == finished(w, next));
    assert(finished(w, next) == next);
    match (w.status)(run.mount(), l.candidate()) {
        types::LoadStatusView::Data(data) => {
            assert(next.sent =~= seq![types::RecvMsgView::ReadDone(data)]);
        },
        types::LoadStatusView::Directory => {},
        types::LoadStatusView::NotFound => {
            assert(next.sent =~= seq![types::RecvMsgView::NotFound]);
        },
    }
}

/// A tree in which nothing is mounted and nothing is known.
pub open spec fn fresh_tree() -> Seq<tree::NodeView> {
    seq![tree::new_node(tree::NodeType::Directory, "root"@, 0)]
}

/// Nothing is known below the node where a load stands that started from a fresh tree.
spec fn is_at_a_leaf(run: Run) -> bool {
    let l = run.loader;
    if l.state == LoadState::FindDriverUrl {
        l.component_index == 0 && l.base == 0
    } else {
        &&& l.component_index == l.base
        &&& run.nodes[l.node_index].nodes.len() == 0
        &&& tree::needs_listing(run.nodes[l.node_index])
    }
}

/// The node that a part of the path that was not in the tree leads to is new.
proof fn lemma_leaf_added(l: loader::LoaderView, nodes: Seq<tree::NodeView>)
    requires
        0 <= l.node_index < nodes.len(),
        0 <= l.component_index < l.end <= l.components.len(),
    ensures
        ({
            let node = loader::candidate_tree(l, nodes)[loader::candidate_node(l, nodes)];
            node.nodes.len() == 0 && tree::needs_listing(node)
        }),
{
}

proof fn lemma_leaf_step(w: World, run: Run)
    requires
        run.wf(w),
        is_searching(run.loader),
        is_at_a_leaf(run),
        run.sent.len() == 0,
    ensures
        ({
            let next = step(w, run);
            let l = run.loader;
            if next.is_open() {
                is_at_a_leaf(next)
            } else {
                l.state == LoadState::LoadFromDriver && (w.status)(run.mount(), l.candidate())
                    is Directory ==> next.sent == seq![
                    types::RecvMsgView::Directory((w.list)(run.mount(), l.candidate())),
                ]
            }
        }),
{
    let l = run.loader;
    let next = step(w, run);
    let mounted = run.mounts.len() as int;
    loader::candidate_keeps_tree(l, run.nodes, mounted);
    if l.component_index < l.end {
        lemma_leaf_added(l, run.nodes);
    }
    if l.state == LoadState::LoadFromDriver && !next.is_open() {
        let listed = (w.list)(run.mount(), l.candidate());
        let at = loader::candidate_node(l, run.nodes);
        let added = loader::candidate_tree(l, run.nodes);
        if (w.status)(run.mount(), l.candidate()) is Directory {
            tree::fetched_listing_is_listed(added, mounted, at, listed.dirs, listed.files);
            assert(next.sent =~= seq![types::RecvMsgView::Directory(listed)]);
        }
    }
}

proof fn lemma_fresh(w: World, run: Run)
    requires
        run.wf(w),
        is_searching(run.loader),
        is_at_a_leaf(run),
        run.sent.len() == 0,
    ensures
        expected(w, run) matches Outcome::Directory { mount, path } ==> finished(w, run).sent
            == seq![types::RecvMsgView::Directory((w.list)(mount, path))],
    decreases
            run.loader.distance(w.drivers).0,
            run.loader.distance(w.drivers).1,
            run.loader.distance(w.drivers).2,
            run.loader.distance(w.drivers).3,
            run.loader.distance(w.drivers).4,
{
    let l = run.loader;
    let next = step(w, run);
    every_step_comes_nearer(w, run);
    lemma_expected(w, run);
    lemma_leaf_step(w, run);
    assert(finished(w, run) == finished(w, next));
    if next.is_open() {
        lemma_fresh(w, next);
    } else {
        assert(finished(w, next) == next);
        assert(l.candidate() =~= l.components.skip(l.base).take(l.end - l.base));
    }
}

/// A load from a fresh tree ends in exactly what the path resolves to: a directory is
/// told with the listing that its driver gives.
pub proof fn fresh_load_tells_what_the_path_resolves_to(w: World, path: Seq<char>)
    requires
        w.drivers >= 0,
        path::path_components(path).len() > 0,
    ensures
        ({
            let components = path::path_components(path);
            let sent = finished(w, start(path, fresh_tree(), seq![])).sent;
            match resolve_url(w, components, components.len() as int, 0) {
                Outcome::Data(data) => sent == seq![types::RecvMsgView::ReadDone(data)],
                Outcome::Directory { mount, path } => sent == seq![
                    types::RecvMsgView::Directory((w.list)(mount, path)),
                ],
                Outcome::Unsupported => sent.len() == 0,
            }
        }),
{
    let components = path::path_components(path);
    let nodes = fresh_tree();
    assert(tree::is_tree(nodes, 0));
    let reached = tree::descend(nodes, 0, components, false);
    assert(reached.count == 0 && reached.node == 0) by {
        assert(nodes[0].nodes.len() == 0);
    }
    load_ends_in_what_the_path_resolves_to(w, path, nodes, seq![]);
    lemma_placed(w, path, nodes, seq![]);
    assert(components.skip(0) =~= components);
    lemma_fresh(w, placed(path, nodes, seq![]));
}

proof fn lemma_url_from(w: World, path: Seq<path::ComponentView>, end: int, from: int, to: int)
    requires
        end > 0,
        from <= to < w.drivers,
        forall|d: int| from <= d < to ==> !(#[trigger] (w.opens_url)(d, path.take(end))),
    ensures
        resolve_url(w, path, end, from) == resolve_url(w, path, end, to),
    decreases to - from,
{
    if from < to {
        lemma_url_from(w, path, end, from + 1, to);
    }
}

proof fn lemma_url_shorter(w: World, path: Seq<path::ComponentView>, end: int, to: int)
    requires
        w.drivers > 0,
        0 <= to <= end,
        forall|d: int, e: int|
            0 <= d < w.drivers && to < e <= end ==> !(#[trigger] (w.opens_url)(d, path.take(e))),
    ensures
        resolve_url(w, path, end, 0) == resolve_url(w, path, to, 0),
    decreases end - to,
{
    if to < end {
        let last = w.drivers - 1;
        lemma_url_from(w, path, end, 0, last);
        assert(!(w.opens_url)(last, path.take(end)));
        assert(resolve_url(w, path, end, last) == resolve_url(w, path, end - 1, 0));
        lemma_url_shorter(w, path, end - 1, to);
    }
}

/// Where a driver opens the first `end` components of a path, and no driver before it
/// does, and none opens more of the path, it is mounted there, and the rest of the path
/// is resolved in it.
pub proof fn longest_url_is_mounted(
    w: World,
    path: Seq<path::ComponentView>,
    end: int,
    driver: int,
)
    requires
        0 < end <= path.len(),
        0 <= driver < w.drivers,
        (w.opens_url)(driver, path.take(end)),
        forall|d: int| 0 <= d < driver ==> !(#[trigger] (w.opens_url)(d, path.take(end))),
        forall|d: int, e: int|
            0 <= d < w.drivers && end < e <= path.len() ==> !(#[trigger] (w.opens_url)(
                d,
                path.take(e),
            )),
    ensures
        resolve_url(w, path, path.len() as int, 0) == resolve_in(
            w,
            Mount::Url { driver, url: path.take(end) },
            path.skip(end),
            path.len() - end,
        ),
{
    lemma_url_shorter(w, path, path.len() as int, end);
    lemma_url_from(w, path, end, 0, driver);
}

/// A path of which no driver opens any part is unsupported.
pub proof fn unopened_path_is_unsupported(w: World, path: Seq<path::ComponentView>)
    requires
        forall|d: int, e: int|
            0 <= d < w.drivers && 0 < e <= path.len() ==> !(#[trigger] (w.opens_url)(
                d,
                path.take(e),
            )),
    ensures
        resolve_url(w, path, path.len() as int, 0) == Outcome::Unsupported,
{
    if w.drivers > 0 {
        lemma_url_shorter(w, path, path.len() as int, 0);
    }
}

/// What a mounted driver has at the longest part of a path decides: where it has
/// something at the first `end` components, and nothing at more of them, the others
/// need not be looked at.
pub proof fn longest_part_decides(
    w: World,
    mount: Mount,
    path: Seq<path::ComponentView>,
    from: int,
    end: int,
)
    requires
        0 < end <= from <= path.len(),
        forall|e: int|
            end < e <= from ==> (#[trigger] (w.status)(mount, path.take(e))) is NotFound,
    ensures
        resolve_in(w, mount, path, from) == resolve_in(w, mount, path, end),
    decreases from - end,
{
    if end < from {
        assert((w.status)(mount, path.take(from)) is NotFound);
        longest_part_decides(w, mount, path, from - 1, end);
    }
}

proof fn lemma_data_from(
    w: World,
    data: Seq<u8>,
    path: Seq<path::ComponentView>,
    from: int,
    to: int,
)
    requires
        from <= to <= w.drivers,
        forall|d: int| from <= d < to ==> !(#[trigger] (w.opens_data)(d, data)),
    ensures
        resolve_data(w, data, path, from) == resolve_data(w, data, path, to),
    decreases to - from,
{
    if from < to {
        lemma_data_from(w, data, path, from + 1, to);
    }
}

/// A file in the middle of a path is opened by the first driver that opens its data,
/// and the rest of the path is resolved in it. Where no driver opens it, its data is
/// what the path resolves to.
pub proof fn file_on_the_way_is_opened(
    w: World,
    mount: Mount,
    path: Seq<path::ComponentView>,
    end: int,
    data: Seq<u8>,
    driver: int,
)
    requires
        0 < end < path.len(),
        forall|e: int|
            end < e <= path.len() ==> (#[trigger] (w.status)(mount, path.take(e))) is NotFound,
        (w.status)(mount, path.take(end)) == types::LoadStatusView::Data(data),
        0 <= driver <= w.drivers,
        driver < w.drivers ==> (w.opens_data)(driver, data),
        forall|d: int| 0 <= d < driver ==> !(#[trigger] (w.opens_data)(d, data)),
    ensures
        resolve_in(w, mount, path, path.len() as int) == if driver < w.drivers {
            resolve_in(w, Mount::Data { driver, data }, path.skip(end), path.len() - end)
        } else {
            Outcome::Data(data)
        },
{
    longest_part_decides(w, mount, path, path.len() as int, end);
    lemma_data_from(w, data, path.skip(end), 0, driver);
}

/// What a path resolves to in a mounted driver that has something at the first `end`
/// components of it and nothing at more of them: a directory there is what the path
/// resolves to, and so is the data of all of the path. Where the driver has nothing at
/// any part of the path, it resolves to nothing.
pub proof fn a_path_resolves_to_what_the_driver_has(
    w: World,
    mount: Mount,
    path: Seq<path::ComponentView>,
    end: int,
)
    requires
        0 <= end <= path.len(),
        forall|e: int|
            end < e <= path.len() ==> (#[trigger] (w.status)(mount, path.take(e))) is NotFound,
    ensures
        ({
            let outcome = resolve_in(w, mount, path, path.len() as int);
            if end == 0 && path.len() > 0 {
                outcome == Outcome::Unsupported
            } else {
                match (w.status)(mount, path.take(end)) {
                    types::LoadStatusView::Directory => outcome == (Outcome::Directory {
                        mount,
                        path: path.take(end),
                    }),
                    types::LoadStatusView::Data(data) => end == path.len() ==> outcome
                        == Outcome::Data(data),
                    types::LoadStatusView::NotFound => path.len() <= 1 ==> outcome
                        == Outcome::Unsupported,
                }
            }
        }),
{
    if end > 0 {
        longest_part_decides(w, mount, path, path.len() as int, end);
    } else if path.len() > 0 {
        longest_part_decides(w, mount, path, path.len() as int, 1);
    }
}

/// The longest part of a path that a driver opens is mounted, and where the driver has
/// data at all of the rest, a load that starts with nothing mounted sends that data, and
/// where it has a directory there, what it lists.
pub proof fn a_fresh_load_sends_what_the_longest_part_has(
    w: World,
    path: Seq<char>,
    end: int,
    driver: int,
)
    requires
        0 < end <= path::path_components(path).len(),
        0 <= driver < w.drivers,
        (w.opens_url)(driver, path::path_components(path).take(end)),
        forall|d: int|
            0 <= d < driver ==> !(#[trigger] (w.opens_url)(
                d,
                path::path_components(path).take(end),
            )),
        forall|d: int, e: int|
            0 <= d < w.drivers && end < e <= path::path_components(path).len()
                ==> !(#[trigger] (w.opens_url)(d, path::path_components(path).take(e))),
    ensures
        ({
            let components = path::path_components(path);
            let mount = Mount::Url { driver, url: components.take(end) };
            let rest = components.skip(end);
            let sent = finished(w, start(path, fresh_tree(), seq![])).sent;
            match (w.status)(mount, rest) {
                types::LoadStatusView::Data(data) => sent == seq![
                    types::RecvMsgView::ReadDone(data),
                ],
                types::LoadStatusView::Directory => sent == seq![
                    types::RecvMsgView::Directory((w.list)(mount, rest)),
                ],
                types::LoadStatusView::NotFound => true,
            }
        }),
{
    let components = path::path_components(path);
    let mount = Mount::Url { driver, url: components.take(end) };
    let rest = components.skip(end);
    longest_url_is_mounted(w, components, end, driver);
    assert(rest.take(rest.len() as int) =~= rest);
    if !((w.status)(mount, rest) is NotFound) {
        a_path_resolves_to_what_the_driver_has(w, mount, rest, rest.len() as int);
    }
    fresh_load_tells_what_the_path_resolves_to(w, path);
}

/// There is nothing at an empty path, whatever is in the tree.
pub proof fn a_load_of_no_path_finds_nothing(
    w: World,
    path: Seq<char>,
    nodes: Seq<tree::NodeView>,
    mounts: Seq<Mount>,
)
    requires
        w.drivers >= 0,
        tree::is_tree(nodes, mounts.len() as int),
        path::path_components(path).len() == 0,
    ensures
        finished(w, start(path, nodes, mounts)).sent == seq![types::RecvMsgView::NotFound],
{
    let first = start(path, nodes, mounts);
    lemma_start(w, path, nodes, mounts);
    let second = step(w, first);
    every_step_comes_nearer(w, first);
    every_step_comes_nearer(w, second);
    let third = step(w, second);
    assert(finished(w, first) == finished(w, second));
    assert(finished(w, second) == finished(w, third));
    assert(finished(w, third) == third);
    assert(third.sent =~= seq![types::RecvMsgView::NotFound]);
}

} // verus!
