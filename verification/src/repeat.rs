//! What loads leave behind for those that follow.
//!
//! A load mounts drivers and fetches listings on its way, and the next load of the same
//! path starts from what it left. It ends in the same.
use crate::loader;
use crate::loader::LoadState;
use crate::path;
use crate::resolve;
use crate::resolve::Mount;
use crate::resolve::Run;
use crate::resolve::World;
use crate::tree;
use crate::types;
use vstd::prelude::*;

verus! {

/// Drivers above a node stay the same where nothing is mounted.
proof fn lemma_nearest_grown(
    a: Seq<tree::NodeView>,
    b: Seq<tree::NodeView>,
    node_drivers: int,
    at: int,
    count: int,
)
    requires
        tree::is_tree(a, node_drivers),
        tree::grew_unmounted(a, b),
        0 <= at < a.len(),
    ensures
        loader::nearest_driver(b, at, count) == loader::nearest_driver(a, at, count),
    decreases count,
{
    if count > 0 {
        assert(b[at].driver_index == a[at].driver_index);
        assert(b[at].parent == a[at].parent);
        assert(0 <= a[at].parent <= at);
        lemma_nearest_grown(a, b, node_drivers, a[at].parent, count - 1);
    }
}

/// New nodes without drivers do not change which driver is nearest.
proof fn lemma_nearest_below(
    nodes: Seq<tree::NodeView>,
    node_drivers: int,
    first_new: int,
    at: int,
    components: Seq<path::ComponentView>,
    count: int,
)
    requires
        tree::is_tree(nodes, node_drivers),
        0 <= at < nodes.len(),
        tree::no_prefix(components),
        forall|i: int| first_new <= i < nodes.len() ==> (#[trigger] nodes[i]).driver_index == -1,
        components.len() > 0 ==> (tree::find_child(
            nodes,
            nodes[at].nodes,
            path::component_name(components[0], false),
        ) matches Some(child) ==> first_new <= child),
        0 <= count,
    ensures
        ({
            let r = tree::descend(nodes, at, components, false);
            loader::nearest_driver(nodes, r.node, count + r.count) == loader::nearest_driver(
                nodes,
                at,
                count,
            )
        }),
    decreases components.len(),
{
    if components.len() > 0 {
        let name = path::component_name(components[0], false);
        assert(!(components[0] is Prefix));
        tree::lemma_found_child(nodes, node_drivers, at, name);
        tree::lemma_find_child(nodes, nodes[at].nodes, name);
        if let Some(child) = tree::find_child(nodes, nodes[at].nodes, name) {
            let tail = components.drop_first();
            assert(tree::no_prefix(tail)) by {
                assert forall|i: int| 0 <= i < tail.len() implies !((#[trigger] tail[i]) is Prefix) by {
                    assert(tail[i] == components[i + 1]);
                }
            }
            if tail.len() > 0 {
                tree::lemma_found_child(
                    nodes,
                    node_drivers,
                    child,
                    path::component_name(tail[0], false),
                );
            }
            lemma_nearest_below(nodes, node_drivers, first_new, child, tail, count + 1);
            let k = choose|k: int| 0 <= k < nodes[at].nodes.len() && nodes[at].nodes[k] == child;
            assert(nodes[nodes[at].nodes[k]].parent == at);
            assert(nodes[child].driver_index == -1);
        }
    }
}

/// The driver on the way of a path stays the same where nothing is mounted.
proof fn lemma_way_grown(
    a: Seq<tree::NodeView>,
    b: Seq<tree::NodeView>,
    node_drivers: int,
    components: Seq<path::ComponentView>,
)
    requires
        tree::is_tree(a, node_drivers),
        tree::is_tree(b, node_drivers),
        tree::grew_unmounted(a, b),
        tree::no_prefix(components),
    ensures
        resolve::driver_on_the_way(components, b) == resolve::driver_on_the_way(components, a),
{
    let ra = tree::descend(a, 0, components, false);
    tree::lemma_descend_below(a, b, node_drivers, node_drivers, components);
    tree::lemma_descend(a, node_drivers, 0, components, false);
    lemma_nearest_below(b, node_drivers, a.len() as int, ra.node, components.skip(ra.count), ra.count);
    lemma_nearest_grown(a, b, node_drivers, ra.node, ra.count);
}

/// A driver that is mounted below all others on the way is the nearest.
proof fn lemma_nearest_mounted(
    nodes: Seq<tree::NodeView>,
    node_drivers: int,
    at: int,
    count: int,
    base: int,
    driver_index: int,
)
    requires
        tree::is_tree(nodes, node_drivers),
        0 <= at < nodes.len(),
        0 < base <= count,
        tree::is_deep(nodes, at, count),
        loader::nearest_driver(nodes, at, count) matches Some(above) ==> above.count <= base,
        0 <= driver_index,
    ensures
        ({
            let mounted_at = tree::ancestor(nodes, at, count - base);
            loader::nearest_driver(
                loader::with_driver(nodes, mounted_at, driver_index),
                at,
                count,
            ) == Some(loader::NodeAbove { node: mounted_at, count: base })
        }),
    decreases count,
{
    let mounted_at = tree::ancestor(nodes, at, count - base);
    tree::lemma_ancestor(nodes, node_drivers, at, count - base);
    if base < count {
        let parent = nodes[at].parent;
        assert(0 <= parent < at);
        tree::lemma_ancestor(nodes, node_drivers, parent, count - 1 - base);
        assert(nodes[at].driver_index == -1);
        lemma_nearest_mounted(nodes, node_drivers, parent, count - 1, base, driver_index);
    }
}

/// The load stands where its path leads in the tree.
spec fn knows_place(run: Run) -> bool {
    let l = run.loader;
    &&& tree::no_prefix(l.components)
    &&& tree::descend(run.nodes, 0, l.components, false) == (tree::Reached {
        node: l.node_index,
        count: l.component_index,
        had_prefix: false,
    })
}

/// The driver that the load asks is the nearest on the way of its path, mounted where
/// the part that it is asked for starts.
spec fn asks_nearest(run: Run, base: int) -> bool {
    let l = run.loader;
    &&& resolve::driver_on_the_way(l.components, run.nodes) matches Some(above)
    &&& above.count == base
    &&& run.nodes[above.node].driver_index == l.driver_index
}

/// The driver that the load asks has nothing at the longer parts of the path.
spec fn has_nothing_beyond(w: World, run: Run, base: int, end: int) -> bool {
    forall|e: int|
        end < e <= run.loader.components.len() ==> (#[trigger] (w.status)(
            run.mount(),
            run.loader.components.subrange(base, e),
        )) is NotFound
}

/// What is known of a load under way that started from these nodes and drivers.
spec fn is_under_way(
    w: World,
    path: Seq<char>,
    nodes: Seq<tree::NodeView>,
    mounts: Seq<Mount>,
    run: Run,
) -> bool {
    let l = run.loader;
    &&& run.wf(w)
    &&& run.is_open()
    &&& run.sent.len() == 0
    &&& l.components == path::path_components(path)
    &&& l.components.len() > 0
    &&& knows_place(run)
    &&& match l.state {
        LoadState::FindDriverUrl => {
            &&& run.nodes == nodes
            &&& run.mounts == mounts
            &&& l.base == 0
            &&& resolve::driver_on_the_way(l.components, run.nodes) is None
        },
        LoadState::LoadFromNode => {
            &&& run.nodes == nodes
            &&& run.mounts == mounts
            &&& l.driver_index != -1
            &&& asks_nearest(run, l.base)
        },
        LoadState::LoadFromDriver => {
            &&& l.driver_index != -1
            &&& asks_nearest(run, l.base)
            &&& has_nothing_beyond(w, run, l.base, l.end)
        },
        LoadState::FindDriverData => {
            &&& l.driver_index != -1
            &&& resolve::driver_on_the_way(l.components, run.nodes) matches Some(above)
            &&& run.nodes[above.node].driver_index == l.driver_index
            &&& 0 < above.count < l.base < l.components.len()
            &&& (w.status)(run.mount(), l.components.subrange(above.count, l.base))
                == types::LoadStatusView::Data(l.data->0)
            &&& has_nothing_beyond(w, run, above.count, l.base)
            &&& forall|d: int|
                0 <= d < l.next_driver ==> !(#[trigger] (w.opens_data)(d, l.data->0))
        },
        _ => false,
    }
}

/// The part of the path that is tried, once it is in the tree, leads where the load
/// then stands.
#[verifier::spinoff_prover]
#[verifier::rlimit(60)]
proof fn lemma_added(w: World, run: Run)
    requires
        run.wf(w),
        knows_place(run),
    ensures
        ({
            let l = run.loader;
            let nodes = loader::candidate_tree(l, run.nodes);
            let after = loader::candidate_added(l, run.nodes);
            let mounted = run.mounts.len() as int;
            &&& tree::is_tree(nodes, mounted)
            &&& tree::grew_unmounted(run.nodes, nodes)
            &&& tree::descend(nodes, 0, l.components, false) == (tree::Reached {
                node: after.node_index,
                count: after.component_index,
                had_prefix: false,
            })
            &&& resolve::driver_on_the_way(l.components, nodes) == resolve::driver_on_the_way(
                l.components,
                run.nodes,
            )
            &&& 0 <= after.node_index < nodes.len()
            &&& l.end <= after.component_index <= l.components.len()
            &&& loader::candidate_node(l, run.nodes) == tree::ancestor(
                nodes,
                after.node_index,
                after.component_index - l.end,
            )
            &&& 0 <= loader::candidate_node(l, run.nodes) < nodes.len()
            &&& tree::is_deep(nodes, after.node_index, after.component_index)
        }),
{
    let l = run.loader;
    let mounted = run.mounts.len() as int;
    let nodes = loader::candidate_tree(l, run.nodes);
    let after = loader::candidate_added(l, run.nodes);
    loader::candidate_keeps_tree(l, run.nodes, mounted);
    resolve::lemma_candidate_grows(l, run.nodes);
    if l.component_index < l.end {
        tree::lemma_descend_chained(run.nodes, mounted, l.components, l.end);
    }
    lemma_way_grown(run.nodes, nodes, mounted, l.components);
    tree::lemma_descend(nodes, mounted, 0, l.components, false);
    assert(tree::is_deep(nodes, 0, 0));
    assert(tree::is_deep(nodes, after.node_index, 0 + after.component_index));
}

/// A driver that is mounted where a part of a path ends, below all others on its way, is
/// the nearest on the way of the path from then on, and the path leads where it led.
pub proof fn a_mounted_driver_is_found_again(
    nodes: Seq<tree::NodeView>,
    node_drivers: int,
    components: Seq<path::ComponentView>,
    end: int,
)
    requires
        tree::is_tree(nodes, node_drivers),
        tree::no_prefix(components),
        0 < end <= tree::descend(nodes, 0, components, false).count,
        resolve::driver_on_the_way(components, nodes) matches Some(above) ==> above.count <= end,
    ensures
        ({
            let r = tree::descend(nodes, 0, components, false);
            let at = tree::ancestor(nodes, r.node, r.count - end);
            let after = loader::with_driver(nodes, at, node_drivers);
            &&& tree::descend(after, 0, components, false) == r
            &&& resolve::driver_on_the_way(components, after) == Some(
                loader::NodeAbove { node: at, count: end },
            )
            &&& 0 <= at < nodes.len()
            &&& after[at].driver_index == node_drivers
        }),
{
    let r = tree::descend(nodes, 0, components, false);
    tree::lemma_descend(nodes, node_drivers, 0, components, false);
    assert(tree::is_deep(nodes, 0, 0));
    assert(tree::is_deep(nodes, r.node, 0 + r.count));
    let at = tree::ancestor(nodes, r.node, r.count - end);
    tree::lemma_ancestor(nodes, node_drivers, r.node, r.count - end);
    let after = loader::with_driver(nodes, at, node_drivers);
    assert(nodes[0].driver_index < node_drivers);
    loader::driver_keeps_tree(nodes, at, node_drivers);
    assert(tree::grew(nodes, after));
    tree::lemma_descend_below(nodes, after, node_drivers, node_drivers + 1, components);
    lemma_nearest_mounted(nodes, node_drivers, r.node, r.count, end, node_drivers);
}

proof fn lemma_url_under_way(
    w: World,
    path: Seq<char>,
    nodes: Seq<tree::NodeView>,
    mounts: Seq<Mount>,
    run: Run,
)
    requires
        is_under_way(w, path, nodes, mounts, run),
        resolve::step(w, run).is_open(),
        run.loader.state == LoadState::FindDriverUrl,
    ensures
        is_under_way(w, path, nodes, mounts, resolve::step(w, run)),
{
    let l = run.loader;
    let next = resolve::step(w, run);
    resolve::every_step_comes_nearer(w, run);
    if w.drivers > 0 && (w.opens_url)(l.next_driver, l.candidate()) {
        let added = loader::candidate_tree(l, run.nodes);
        lemma_added(w, run);
        a_mounted_driver_is_found_again(added, run.mounts.len() as int, l.components, l.end);
        assert(asks_nearest(next, l.end));
        assert(knows_place(next));
        assert(has_nothing_beyond(w, next, l.end, l.components.len() as int));
    }
}

proof fn lemma_data_opened(
    w: World,
    path: Seq<char>,
    nodes: Seq<tree::NodeView>,
    mounts: Seq<Mount>,
    run: Run,
)
    requires
        is_under_way(w, path, nodes, mounts, run),
        resolve::step(w, run).is_open(),
        run.loader.state == LoadState::FindDriverData,
        w.drivers > 0 && (w.opens_data)(run.loader.next_driver, run.loader.data->0),
    ensures
        knows_place(resolve::step(w, run)),
        asks_nearest(resolve::step(w, run), run.loader.end),
{
    let l = run.loader;
    let next = resolve::step(w, run);
    let mounted = run.mounts.len() as int;
    let at = tree::ancestor(run.nodes, l.node_index, l.component_index - l.end);
    let after = loader::with_driver(run.nodes, at, mounted);
    assert(next.nodes == after);
    assert(next.loader.driver_index == mounted);
    assert(resolve::driver_on_the_way(l.components, after) == Some(
        loader::NodeAbove { node: at, count: l.end },
    ) && tree::descend(after, 0, l.components, false) == tree::descend(
        run.nodes,
        0,
        l.components,
        false,
    ) && after[at].driver_index == mounted) by {
        a_mounted_driver_is_found_again(run.nodes, mounted, l.components, l.end);
    }
}

proof fn lemma_data_under_way(
    w: World,
    path: Seq<char>,
    nodes: Seq<tree::NodeView>,
    mounts: Seq<Mount>,
    run: Run,
)
    requires
        is_under_way(w, path, nodes, mounts, run),
        resolve::step(w, run).is_open(),
        run.loader.state == LoadState::FindDriverData,
    ensures
        is_under_way(w, path, nodes, mounts, resolve::step(w, run)),
{
    let l = run.loader;
    let next = resolve::step(w, run);
    assert(next.wf(w)) by {
        resolve::every_step_comes_nearer(w, run);
    }
    if w.drivers > 0 && (w.opens_data)(l.next_driver, l.data->0) {
        lemma_data_opened(w, path, nodes, mounts, run);
        assert(has_nothing_beyond(w, next, l.end, l.components.len() as int));
    } else {
        assert(next.mount() == run.mount());
        assert(next.nodes == run.nodes);
        let above = resolve::driver_on_the_way(l.components, run.nodes)->0;
        assert(has_nothing_beyond(w, next, above.count, l.base));
        assert(knows_place(next));
    }
}

proof fn lemma_driver_under_way(
    w: World,
    path: Seq<char>,
    nodes: Seq<tree::NodeView>,
    mounts: Seq<Mount>,
    run: Run,
)
    requires
        is_under_way(w, path, nodes, mounts, run),
        resolve::step(w, run).is_open(),
        run.loader.state == LoadState::LoadFromDriver,
    ensures
        is_under_way(w, path, nodes, mounts, resolve::step(w, run)),
{
    let l = run.loader;
    let next = resolve::step(w, run);
    let mounted = run.mounts.len() as int;
    resolve::every_step_comes_nearer(w, run);
    assert(next.mount() == run.mount());
    if (w.status)(run.mount(), l.candidate()) is NotFound {
        assert forall|e: int| next.loader.end < e <= l.components.len() implies (
        #[trigger] (w.status)(next.mount(), l.components.subrange(l.base, e))) is NotFound by {
            if e > l.end {
                assert((w.status)(run.mount(), run.loader.components.subrange(l.base, e)) is NotFound);
            }
        }
        assert(has_nothing_beyond(w, next, l.base, next.loader.end));
    } else {
        let added = loader::candidate_tree(l, run.nodes);
        let above = resolve::driver_on_the_way(l.components, run.nodes)->0;
        lemma_added(w, run);
        loader::lemma_nearest_driver(run.nodes, mounted, l.node_index, l.component_index);
        assert(added[above.node].driver_index == run.nodes[above.node].driver_index);
        assert(has_nothing_beyond(w, next, above.count, l.end));
        assert(knows_place(next));
    }
}

/// A step of a load under way is under way, unless it is the last.
proof fn lemma_under_way(
    w: World,
    path: Seq<char>,
    nodes: Seq<tree::NodeView>,
    mounts: Seq<Mount>,
    run: Run,
)
    requires
        is_under_way(w, path, nodes, mounts, run),
        resolve::step(w, run).is_open(),
    ensures
        is_under_way(w, path, nodes, mounts, resolve::step(w, run)),
{
    if run.loader.state == LoadState::FindDriverUrl {
        lemma_url_under_way(w, path, nodes, mounts, run);
    } else if run.loader.state == LoadState::FindDriverData {
        lemma_data_under_way(w, path, nodes, mounts, run);
    } else if run.loader.state == LoadState::LoadFromDriver {
        lemma_driver_under_way(w, path, nodes, mounts, run);
    }
}

/// The path is all in the tree, and the driver that is asked for it has nothing there.
pub open spec fn is_missing(
    w: World,
    path: Seq<char>,
    nodes: Seq<tree::NodeView>,
    mounts: Seq<Mount>,
) -> bool {
    let components = path::path_components(path);
    &&& tree::descend(nodes, 0, components, false).count == components.len()
    &&& resolve::driver_on_the_way(components, nodes) matches Some(above)
    &&& (w.status)(mounts[nodes[above.node].driver_index], components.skip(above.count)) is NotFound
}

/// What a load ends in that starts anew from what another has left.
pub open spec fn again(w: World, path: Seq<char>, end: Run) -> Seq<types::RecvMsgView> {
    resolve::finished(w, resolve::start(path, end.nodes, end.mounts)).sent
}

/// A driver that has nothing at the longer parts of a path is soon asked for a shorter
/// one.
proof fn lemma_backs_off(w: World, run: Run, to: int)
    requires
        run.wf(w),
        run.loader.state == LoadState::LoadFromDriver,
        run.loader.driver_index != -1,
        run.loader.base < to <= run.loader.end,
        forall|e: int|
            to < e <= run.loader.end ==> (#[trigger] (w.status)(
                run.mount(),
                run.loader.components.subrange(run.loader.base, e),
            )) is NotFound,
    ensures
        ({
            let shorter = Run { loader: loader::LoaderView { end: to, ..run.loader }, ..run };
            &&& shorter.wf(w)
            &&& resolve::finished(w, run) == resolve::finished(w, shorter)
        }),
    decreases run.loader.end - to,
{
    if to < run.loader.end {
        assert((w.status)(run.mount(), run.loader.candidate()) is NotFound);
        resolve::every_step_comes_nearer(w, run);
        let next = resolve::step(w, run);
        assert(resolve::finished(w, run) == resolve::finished(w, next));
        lemma_backs_off(w, next, to);
        assert(next =~= Run {
            loader: loader::LoaderView { end: run.loader.end - 1, ..run.loader },
            ..run
        });
    } else {
        assert(run =~= Run { loader: loader::LoaderView { end: to, ..run.loader }, ..run });
    }
}

/// The directory that a load ended in is known where it was reached.
proof fn lemma_listed(
    nodes: Seq<tree::NodeView>,
    at: int,
    fetch: bool,
    listed: types::FilesDirsView,
)
    requires
        0 <= at < nodes.len(),
        !fetch ==> !tree::needs_listing(nodes[at]),
    ensures
        !tree::needs_listing(loader::directory_tree(nodes, at, fetch, listed)[at]),
{
}

/// A load that ended in a directory of the driver that it asked ends in it again.
#[verifier::spinoff_prover]
#[verifier::rlimit(60)]
proof fn lemma_directory_again(
    w: World,
    path: Seq<char>,
    nodes: Seq<tree::NodeView>,
    mounts: Seq<Mount>,
    run: Run,
)
    requires
        is_under_way(w, path, nodes, mounts, run),
        run.loader.state == LoadState::LoadFromDriver,
        (w.status)(run.mount(), run.loader.candidate()) is Directory,
        !is_missing(w, path, resolve::step(w, run).nodes, resolve::step(w, run).mounts),
    ensures
        again(w, path, resolve::step(w, run)) == resolve::step(w, run).sent,
{
    let l = run.loader;
    let len = l.components.len() as int;
    let mounted = run.mounts.len() as int;
    let next = resolve::step(w, run);
    let added = loader::candidate_tree(l, run.nodes);
    let after = loader::candidate_added(l, run.nodes);
    let at = loader::candidate_node(l, run.nodes);
    let fetch = loader::needs_listing(l, run.nodes);
    let listed = (w.list)(run.mount(), l.candidate());
    let all = next.nodes;
    lemma_added(w, run);
    resolve::lemma_directory(added, mounted, at, fetch, listed);
    lemma_listed(added, at, fetch, listed);
    lemma_way_grown(added, all, mounted, l.components);
    tree::lemma_descend_below(added, all, mounted, mounted, l.components);
    let r = tree::descend(all, 0, l.components, false);
    tree::lemma_ancestor_adds(
        all,
        r.node,
        r.count - after.component_index,
        after.component_index - l.end,
    );
    tree::lemma_ancestor_grown(
        added,
        all,
        mounted,
        after.node_index,
        after.component_index - l.end,
    );
    assert(tree::ancestor(all, r.node, r.count - l.end) == at);
    let above = resolve::driver_on_the_way(l.components, run.nodes)->0;
    tree::lemma_descend(run.nodes, mounted, 0, l.components, false);
    loader::lemma_nearest_driver(run.nodes, mounted, l.node_index, l.component_index);
    tree::growth_is_transitive(run.nodes, added, all);
    assert(all[above.node].driver_index == run.nodes[above.node].driver_index);
    let second = resolve::placed(path, all, run.mounts);
    resolve::lemma_placed(w, path, all, run.mounts);
    assert(second.mount() == run.mount());
    assert(next.sent =~= seq![types::RecvMsgView::Directory(tree::listing(all, at))]);
    if r.count == len {
        assert(l.components.skip(l.base) =~= l.components.subrange(l.base, len));
        assert(l.end == len);
        assert(second.loader.candidate() =~= l.candidate());
        resolve::every_step_comes_nearer(w, second);
        let last = resolve::step(w, second);
        assert(resolve::finished(w, second) == resolve::finished(w, last));
        assert(resolve::finished(w, last) == last);
        assert(last.sent =~= next.sent);
    } else {
        lemma_backs_off(w, second, l.end);
        let third = Run { loader: loader::LoaderView { end: l.end, ..second.loader }, ..second };
        assert(third.loader.candidate() =~= l.candidate());
        resolve::every_step_comes_nearer(w, third);
        let last = resolve::step(w, third);
        assert(resolve::finished(w, third) == resolve::finished(w, last));
        assert(resolve::finished(w, last) == last);
        assert(last.sent =~= next.sent);
    }
}

/// The run from which a load starts anew, where the nodes have not changed.
proof fn lemma_second(
    w: World,
    path: Seq<char>,
    nodes: Seq<tree::NodeView>,
    mounts: Seq<Mount>,
    run: Run,
)
    requires
        is_under_way(w, path, nodes, mounts, run),
        run.loader.state == LoadState::LoadFromDriver || run.loader.state
            == LoadState::FindDriverData || run.loader.state == LoadState::LoadFromNode,
    ensures
        ({
            let second = resolve::placed(path, run.nodes, run.mounts);
            let l = run.loader;
            let above = resolve::driver_on_the_way(l.components, run.nodes)->0;
            &&& second.wf(w)
            &&& resolve::finished(w, resolve::start(path, run.nodes, run.mounts))
                == resolve::finished(w, second)
            &&& second.mount() == run.mount()
            &&& second.loader.driver_index == l.driver_index
            &&& second.loader.base == above.count
            &&& 0 < above.count
            &&& second.loader.end == l.components.len()
            &&& second.loader.components == l.components
            &&& second.loader.component_index == l.component_index
            &&& second.loader.node_index == l.node_index
            &&& second.nodes == run.nodes
            &&& second.mounts == run.mounts
            &&& second.sent.len() == 0
            &&& second.loader.state == if l.component_index == l.components.len() {
                LoadState::LoadFromNode
            } else {
                LoadState::LoadFromDriver
            }
        }),
{
    let l = run.loader;
    resolve::lemma_placed(w, path, run.nodes, run.mounts);
    loader::lemma_nearest_driver(
        run.nodes,
        run.mounts.len() as int,
        l.node_index,
        l.component_index,
    );
}

/// A load that ended in the data of the full path ends in it again.
proof fn lemma_data_again(
    w: World,
    path: Seq<char>,
    nodes: Seq<tree::NodeView>,
    mounts: Seq<Mount>,
    run: Run,
)
    requires
        is_under_way(w, path, nodes, mounts, run),
        run.loader.state == LoadState::LoadFromDriver,
        (w.status)(run.mount(), run.loader.candidate()) is Data,
        run.loader.end == run.loader.components.len(),
    ensures
        again(w, path, resolve::step(w, run)) == resolve::step(w, run).sent,
{
    let l = run.loader;
    let next = resolve::step(w, run);
    lemma_second(w, path, nodes, mounts, run);
    let second = resolve::placed(path, run.nodes, run.mounts);
    assert(second.loader.candidate() =~= l.candidate());
    resolve::every_step_comes_nearer(w, second);
    let last = resolve::step(w, second);
    assert(resolve::finished(w, second) == resolve::finished(w, last));
    assert(resolve::finished(w, last) == last);
    assert(last.sent =~= next.sent);
}

/// A load that found nothing finds nothing again.
proof fn lemma_nothing_again(
    w: World,
    path: Seq<char>,
    nodes: Seq<tree::NodeView>,
    mounts: Seq<Mount>,
    run: Run,
)
    requires
        is_under_way(w, path, nodes, mounts, run),
        run.loader.state == LoadState::LoadFromDriver,
        (w.status)(run.mount(), run.loader.candidate()) is NotFound,
        !resolve::step(w, run).is_open(),
        !is_missing(w, path, run.nodes, run.mounts),
    ensures
        again(w, path, resolve::step(w, run)) == resolve::step(w, run).sent,
{
    let l = run.loader;
    let len = l.components.len() as int;
    let next = resolve::step(w, run);
    lemma_second(w, path, nodes, mounts, run);
    let second = resolve::placed(path, run.nodes, run.mounts);
    assert(next.sent =~= seq![]);
    assert(l.components.skip(l.base) =~= l.components.subrange(l.base, len));
    if l.component_index == len {
        if l.end < len {
            assert((w.status)(run.mount(), l.components.subrange(l.base, len)) is NotFound);
        }
        assert(is_missing(w, path, run.nodes, run.mounts));
    } else {
        assert(l.base < l.end);
        lemma_backs_off(w, second, l.end);
        let third = Run { loader: loader::LoaderView { end: l.end, ..second.loader }, ..second };
        assert(third.loader.candidate() =~= l.candidate());
        resolve::every_step_comes_nearer(w, third);
        let last = resolve::step(w, third);
        assert(resolve::finished(w, third) == resolve::finished(w, last));
        assert(resolve::finished(w, last) == last);
        assert(last.sent =~= next.sent);
    }
}

/// The data that no driver opens is not opened by any again.
proof fn lemma_unopened(w: World, run: Run)
    requires
        run.wf(w),
        run.loader.state == LoadState::FindDriverData,
        run.sent.len() == 0,
        forall|d: int|
            run.loader.next_driver <= d < w.drivers ==> !(#[trigger] (w.opens_data)(
                d,
                run.loader.data->0,
            )),
    ensures
        resolve::finished(w, run).sent == seq![types::RecvMsgView::ReadDone(run.loader.data->0)],
    decreases w.drivers - run.loader.next_driver,
{
    let next = resolve::step(w, run);
    resolve::every_step_comes_nearer(w, run);
    assert(resolve::finished(w, run) == resolve::finished(w, next));
    if next.is_open() {
        lemma_unopened(w, next);
    } else {
        assert(resolve::finished(w, next) == next);
        assert(next.sent =~= seq![types::RecvMsgView::ReadDone(run.loader.data->0)]);
    }
}

/// A load that ended in data that no driver opens ends in it again.
proof fn lemma_unopened_again(
    w: World,
    path: Seq<char>,
    nodes: Seq<tree::NodeView>,
    mounts: Seq<Mount>,
    run: Run,
)
    requires
        is_under_way(w, path, nodes, mounts, run),
        run.loader.state == LoadState::FindDriverData,
        !resolve::step(w, run).is_open(),
        !is_missing(w, path, run.nodes, run.mounts),
    ensures
        again(w, path, resolve::step(w, run)) == resolve::step(w, run).sent,
{
    let l = run.loader;
    let len = l.components.len() as int;
    let next = resolve::step(w, run);
    lemma_second(w, path, nodes, mounts, run);
    let above = resolve::driver_on_the_way(l.components, run.nodes)->0;
    let second = resolve::placed(path, run.nodes, run.mounts);
    let data = l.data->0;
    assert(next.sent =~= seq![types::RecvMsgView::ReadDone(data)]);
    assert(l.components.skip(above.count) =~= l.components.subrange(above.count, len));
    assert((w.status)(run.mount(), l.components.subrange(above.count, len)) is NotFound);
    assert(l.component_index < len);
    lemma_backs_off(w, second, l.base);
    let third = Run { loader: loader::LoaderView { end: l.base, ..second.loader }, ..second };
    assert(third.loader.candidate() =~= l.components.subrange(above.count, l.base));
    resolve::every_step_comes_nearer(w, third);
    let fourth = resolve::step(w, third);
    assert(resolve::finished(w, third) == resolve::finished(w, fourth));
    assert(fourth.loader.state == LoadState::FindDriverData);
    assert(fourth.loader.data == Some(data));
    lemma_unopened(w, fourth);
}

/// A load of a path that is all in the tree, and is a directory there, ends in it
/// again.
proof fn lemma_known_directory_again(
    w: World,
    path: Seq<char>,
    nodes: Seq<tree::NodeView>,
    mounts: Seq<Mount>,
    run: Run,
)
    requires
        is_under_way(w, path, nodes, mounts, run),
        run.loader.state == LoadState::LoadFromNode,
        (w.status)(run.mount(), run.loader.candidate()) is Directory,
    ensures
        again(w, path, resolve::step(w, run)) == resolve::step(w, run).sent,
{
    let l = run.loader;
    let mounted = run.mounts.len() as int;
    let next = resolve::step(w, run);
    let at = l.node_index;
    let fetch = tree::needs_listing(run.nodes[at]);
    let listed = (w.list)(run.mount(), l.candidate());
    let all = next.nodes;
    resolve::lemma_directory(run.nodes, mounted, at, fetch, listed);
    lemma_listed(run.nodes, at, fetch, listed);
    lemma_way_grown(run.nodes, all, mounted, l.components);
    tree::lemma_descend_below(run.nodes, all, mounted, mounted, l.components);
    let above = resolve::driver_on_the_way(l.components, run.nodes)->0;
    loader::lemma_nearest_driver(run.nodes, mounted, l.node_index, l.component_index);
    assert(all[above.node].driver_index == run.nodes[above.node].driver_index);
    let second = resolve::placed(path, all, run.mounts);
    resolve::lemma_placed(w, path, all, run.mounts);
    assert(second.loader.candidate() =~= l.candidate());
    assert(next.sent =~= seq![types::RecvMsgView::Directory(tree::listing(all, at))]);
    resolve::every_step_comes_nearer(w, second);
    let last = resolve::step(w, second);
    assert(resolve::finished(w, second) == resolve::finished(w, last));
    assert(resolve::finished(w, last) == last);
    assert(last.sent =~= next.sent);
}

/// The last step of a load under way leaves nodes from which the load ends in the same
/// again, unless it has left them as they were.
proof fn lemma_last_step(
    w: World,
    path: Seq<char>,
    nodes: Seq<tree::NodeView>,
    mounts: Seq<Mount>,
    run: Run,
)
    requires
        is_under_way(w, path, nodes, mounts, run),
        !resolve::step(w, run).is_open(),
    ensures
        ({
            let next = resolve::step(w, run);
            ||| next.nodes == nodes && next.mounts == mounts
            ||| is_missing(w, path, next.nodes, next.mounts)
            ||| again(w, path, next) == next.sent
        }),
{
    let l = run.loader;
    let next = resolve::step(w, run);
    if l.state == LoadState::FindDriverUrl {
    } else if l.state == LoadState::FindDriverData {
        if !is_missing(w, path, next.nodes, next.mounts) {
            lemma_unopened_again(w, path, nodes, mounts, run);
        }
    } else if l.state == LoadState::LoadFromNode {
        if (w.status)(run.mount(), l.candidate()) is Directory {
            lemma_known_directory_again(w, path, nodes, mounts, run);
        }
    } else if !is_missing(w, path, next.nodes, next.mounts) {
        match (w.status)(run.mount(), l.candidate()) {
            types::LoadStatusView::Directory => {
                lemma_directory_again(w, path, nodes, mounts, run);
            },
            types::LoadStatusView::Data(data) => {
                lemma_data_again(w, path, nodes, mounts, run);
            },
            types::LoadStatusView::NotFound => {
                lemma_nothing_again(w, path, nodes, mounts, run);
            },
        }
    }
}

proof fn lemma_again(
    w: World,
    path: Seq<char>,
    nodes: Seq<tree::NodeView>,
    mounts: Seq<Mount>,
    run: Run,
)
    requires
        is_under_way(w, path, nodes, mounts, run),
    ensures
        ({
            let end = resolve::finished(w, run);
            ||| end.nodes == nodes && end.mounts == mounts
            ||| is_missing(w, path, end.nodes, end.mounts)
            ||| again(w, path, end) == end.sent
        }),
    decreases
            run.loader.distance(w.drivers).0,
            run.loader.distance(w.drivers).1,
            run.loader.distance(w.drivers).2,
            run.loader.distance(w.drivers).3,
            run.loader.distance(w.drivers).4,
{
    let next = resolve::step(w, run);
    resolve::every_step_comes_nearer(w, run);
    assert(resolve::finished(w, run) == resolve::finished(w, next));
    if next.is_open() {
        lemma_under_way(w, path, nodes, mounts, run);
        lemma_again(w, path, nodes, mounts, next);
    } else {
        assert(resolve::finished(w, next) == next);
        lemma_last_step(w, path, nodes, mounts, run);
    }
}

/// A second load of the same path, from what the first has left, ends in the same
/// message as the first, or without one where the first did. The one exception is a
/// path that came to be all in the tree though the driver that is asked for it has
/// nothing there: that is told the second time.
pub proof fn a_second_load_ends_as_the_first(
    w: World,
    path: Seq<char>,
    nodes: Seq<tree::NodeView>,
    mounts: Seq<Mount>,
)
    requires
        w.drivers >= 0,
        tree::is_tree(nodes, mounts.len() as int),
        ({
            let first = resolve::finished(w, resolve::start(path, nodes, mounts));
            is_missing(w, path, first.nodes, first.mounts) ==> is_missing(w, path, nodes, mounts)
        }),
    ensures
        ({
            let first = resolve::finished(w, resolve::start(path, nodes, mounts));
            again(w, path, first) == first.sent
        }),
{
    let components = path::path_components(path);
    let mounted = mounts.len() as int;
    let begun = resolve::start(path, nodes, mounts);
    let first = resolve::finished(w, begun);
    resolve::lemma_start(w, path, nodes, mounts);
    if components.len() == 0 {
        let second = resolve::step(w, begun);
        resolve::every_step_comes_nearer(w, begun);
        resolve::every_step_comes_nearer(w, second);
        let third = resolve::step(w, second);
        assert(first == resolve::finished(w, second));
        assert(resolve::finished(w, second) == resolve::finished(w, third));
        assert(resolve::finished(w, third) == third);
        assert(third.nodes == nodes && third.mounts == mounts);
    } else {
        let reached = tree::descend(nodes, 0, components, false);
        tree::lemma_descend(nodes, mounted, 0, components, false);
        tree::lemma_descend_ends(nodes, mounted, 0, components);
        loader::lemma_nearest_driver(nodes, mounted, reached.node, reached.count);
        resolve::lemma_placed(w, path, nodes, mounts);
        let placed = resolve::placed(path, nodes, mounts);
        assert(is_under_way(w, path, nodes, mounts, placed));
        if is_missing(w, path, nodes, mounts) {
            let l = placed.loader;
            assert(l.candidate() =~= components.skip(l.base));
            resolve::every_step_comes_nearer(w, placed);
            let last = resolve::step(w, placed);
            assert(resolve::finished(w, placed) == resolve::finished(w, last));
            assert(resolve::finished(w, last) == last);
            assert(last.nodes == nodes && last.mounts == mounts);
        } else {
            lemma_again(w, path, nodes, mounts, placed);
        }
    }
}

/// The first `k` components of two paths have the same names.
pub open spec fn agree(
    one: Seq<path::ComponentView>,
    other: Seq<path::ComponentView>,
    k: int,
) -> bool {
    &&& 0 <= k <= one.len()
    &&& k <= other.len()
    &&& forall|i: int|
        0 <= i < k ==> path::component_name(#[trigger] one[i], false) == path::component_name(
            other[i],
            false,
        )
}

/// A node on the ways of two paths lies equally deep on both, and the paths agree up to
/// there.
proof fn lemma_same_node(
    nodes: Seq<tree::NodeView>,
    node_drivers: int,
    one: Seq<path::ComponentView>,
    other: Seq<path::ComponentView>,
    j: int,
    k: int,
)
    requires
        tree::is_tree(nodes, node_drivers),
        tree::no_prefix(one),
        tree::no_prefix(other),
        ({
            let a = tree::descend(nodes, 0, one, false);
            let b = tree::descend(nodes, 0, other, false);
            &&& 0 <= j <= a.count
            &&& 0 <= k <= b.count
            &&& tree::ancestor(nodes, a.node, a.count - j) == tree::ancestor(
                nodes,
                b.node,
                b.count - k,
            )
        }),
    ensures
        j == k,
        agree(one, other, j),
    decreases j,
{
    let a = tree::descend(nodes, 0, one, false);
    let b = tree::descend(nodes, 0, other, false);
    let at = tree::ancestor(nodes, a.node, a.count - j);
    tree::lemma_descend(nodes, node_drivers, 0, one, false);
    tree::lemma_descend(nodes, node_drivers, 0, other, false);
    tree::lemma_descend_take(nodes, node_drivers, 0, one, j);
    tree::lemma_descend_take(nodes, node_drivers, 0, other, k);
    tree::lemma_descend(nodes, node_drivers, 0, one.take(j), false);
    tree::lemma_descend(nodes, node_drivers, 0, other.take(k), false);
    assert(tree::is_deep(nodes, 0, 0));
    assert(tree::is_deep(nodes, at, 0 + j));
    assert(tree::is_deep(nodes, at, 0 + k));
    if j > 0 && k > 0 {
        tree::lemma_ancestor_adds(nodes, a.node, a.count - j, 1);
        tree::lemma_ancestor_adds(nodes, b.node, b.count - k, 1);
        assert(tree::ancestor(nodes, at, 1) == tree::ancestor(nodes, nodes[at].parent, 0));
        lemma_same_node(nodes, node_drivers, one, other, j - 1, k - 1);
        lemma_no_prefix_take(one, j);
        lemma_no_prefix_take(other, k);
        tree::lemma_descend_name(nodes, node_drivers, 0, one.take(j));
        tree::lemma_descend_name(nodes, node_drivers, 0, other.take(k));
        assert(one.take(j)[j - 1] == one[j - 1]);
        assert(other.take(k)[k - 1] == other[k - 1]);
    }
}

proof fn lemma_no_prefix_take(components: Seq<path::ComponentView>, k: int)
    requires
        tree::no_prefix(components),
        0 <= k <= components.len(),
    ensures
        tree::no_prefix(components.take(k)),
        tree::no_prefix(components.skip(k)),
{
    let first = components.take(k);
    let rest = components.skip(k);
    assert forall|i: int| 0 <= i < first.len() implies !((#[trigger] first[i]) is Prefix) by {
        assert(first[i] == components[i]);
    }
    assert forall|i: int| 0 <= i < rest.len() implies !((#[trigger] rest[i]) is Prefix) by {
        assert(rest[i] == components[k + i]);
    }
}

/// Names lead to one node.
proof fn lemma_same_names(
    nodes: Seq<tree::NodeView>,
    at: int,
    one: Seq<path::ComponentView>,
    other: Seq<path::ComponentView>,
)
    requires
        one.len() == other.len(),
        agree(one, other, one.len() as int),
        tree::no_prefix(one),
        tree::no_prefix(other),
    ensures
        tree::descend(nodes, at, one, false) == tree::descend(nodes, at, other, false),
    decreases one.len(),
{
    if one.len() > 0 {
        assert(!(one[0] is Prefix) && !(other[0] is Prefix));
        assert(path::component_name(one[0], false) == path::component_name(other[0], false));
        if let Some(child) = tree::find_child(
            nodes,
            nodes[at].nodes,
            path::component_name(one[0], false),
        ) {
            let a = one.drop_first();
            let b = other.drop_first();
            lemma_no_prefix_take(one, 1);
            lemma_no_prefix_take(other, 1);
            assert(a =~= one.skip(1));
            assert(b =~= other.skip(1));
            assert forall|i: int| 0 <= i < a.len() implies path::component_name(
                #[trigger] a[i],
                false,
            ) == path::component_name(b[i], false) by {
                assert(a[i] == one[i + 1]);
            }
            lemma_same_names(nodes, child, a, b);
        }
    }
}

/// Paths that agree up to a node share it.
proof fn lemma_shared_node(
    nodes: Seq<tree::NodeView>,
    node_drivers: int,
    one: Seq<path::ComponentView>,
    other: Seq<path::ComponentView>,
    k: int,
)
    requires
        tree::is_tree(nodes, node_drivers),
        tree::no_prefix(one),
        tree::no_prefix(other),
        agree(one, other, k),
        k <= tree::descend(nodes, 0, one, false).count,
    ensures
        ({
            let a = tree::descend(nodes, 0, one, false);
            let b = tree::descend(nodes, 0, other, false);
            &&& k <= b.count
            &&& tree::ancestor(nodes, a.node, a.count - k) == tree::ancestor(
                nodes,
                b.node,
                b.count - k,
            )
        }),
{
    lemma_no_prefix_take(one, k);
    lemma_no_prefix_take(other, k);
    tree::lemma_descend_take(nodes, node_drivers, 0, one, k);
    assert forall|i: int| 0 <= i < k implies path::component_name(
        #[trigger] one.take(k)[i],
        false,
    ) == path::component_name(other.take(k)[i], false) by {
        assert(one.take(k)[i] == one[i]);
    }
    lemma_same_names(nodes, 0, one.take(k), other.take(k));
    tree::lemma_descend_concat(nodes, 0, other.take(k), other.skip(k));
    assert(other =~= other.take(k) + other.skip(k));
    let n = tree::descend(nodes, 0, other.take(k), false).node;
    tree::lemma_descend(nodes, node_drivers, 0, other.take(k), false);
    tree::lemma_descend(nodes, node_drivers, n, other.skip(k), false);
    tree::lemma_descend_take(nodes, node_drivers, 0, other, k);
}

/// Where a node at or above another has a driver, the other has one on its way.
proof fn lemma_has_nearest(nodes: Seq<tree::NodeView>, at: int, count: int, steps: int)
    requires
        0 <= steps < count,
        nodes[tree::ancestor(nodes, at, steps)].driver_index != -1,
    ensures
        loader::nearest_driver(nodes, at, count) is Some,
    decreases steps,
{
    if steps > 0 && nodes[at].driver_index == -1 {
        lemma_has_nearest(nodes, nodes[at].parent, count - 1, steps - 1);
    }
}

/// A driver that is on the way of one path and not of another lies where they do not
/// agree any more.
proof fn lemma_ways_part(
    nodes: Seq<tree::NodeView>,
    node_drivers: int,
    one: Seq<path::ComponentView>,
    other: Seq<path::ComponentView>,
)
    requires
        tree::is_tree(nodes, node_drivers),
        tree::no_prefix(one),
        tree::no_prefix(other),
        resolve::driver_on_the_way(other, nodes) is None,
    ensures
        resolve::driver_on_the_way(one, nodes) matches Some(above) ==> !agree(
            one,
            other,
            above.count,
        ),
{
    let a = tree::descend(nodes, 0, one, false);
    let b = tree::descend(nodes, 0, other, false);
    if let Some(above) = resolve::driver_on_the_way(one, nodes) {
        tree::lemma_descend(nodes, node_drivers, 0, one, false);
        loader::lemma_nearest_driver(nodes, node_drivers, a.node, a.count);
        lemma_nearest_is_above(nodes, a.node, a.count);
        if agree(one, other, above.count) {
            lemma_shared_node(nodes, node_drivers, one, other, above.count);
            lemma_has_nearest(nodes, b.node, b.count, b.count - above.count);
        }
    }
}

/// The nearest driver is where it is said to be.
proof fn lemma_nearest_is_above(nodes: Seq<tree::NodeView>, at: int, count: int)
    ensures
        loader::nearest_driver(nodes, at, count) matches Some(above) ==> {
            &&& 0 < above.count <= count
            &&& above.node == tree::ancestor(nodes, at, count - above.count)
            &&& nodes[above.node].driver_index != -1
        },
    decreases count,
{
    if count > 0 && nodes[at].driver_index == -1 {
        lemma_nearest_is_above(nodes, nodes[at].parent, count - 1);
    }
}

/// A driver that is mounted off the way changes nothing on it.
proof fn lemma_nearest_off_the_way(
    nodes: Seq<tree::NodeView>,
    node_drivers: int,
    at: int,
    count: int,
    mounted_at: int,
    driver_index: int,
)
    requires
        tree::is_tree(nodes, node_drivers),
        0 <= at < nodes.len(),
        0 <= mounted_at < nodes.len(),
        forall|k: int|
            0 <= k < count ==> (#[trigger] tree::ancestor(nodes, at, k)) != mounted_at,
    ensures
        loader::nearest_driver(
            loader::with_driver(nodes, mounted_at, driver_index),
            at,
            count,
        ) == loader::nearest_driver(nodes, at, count),
    decreases count,
{
    if count > 0 {
        assert(tree::ancestor(nodes, at, 0) == at);
        let parent = nodes[at].parent;
        assert(0 <= parent <= at);
        assert forall|k: int| 0 <= k < count - 1 implies (#[trigger] tree::ancestor(
            nodes,
            parent,
            k,
        )) != mounted_at by {
            assert(tree::ancestor(nodes, at, k + 1) == tree::ancestor(nodes, parent, k));
        }
        lemma_nearest_off_the_way(nodes, node_drivers, parent, count - 1, mounted_at, driver_index);
    }
}

/// A driver that is mounted on the way of one path, where another path does not agree
/// with it any more, is not on the way of the other.
proof fn lemma_mounted_off_the_way(
    nodes: Seq<tree::NodeView>,
    node_drivers: int,
    one: Seq<path::ComponentView>,
    other: Seq<path::ComponentView>,
    end: int,
)
    requires
        tree::is_tree(nodes, node_drivers),
        tree::no_prefix(one),
        tree::no_prefix(other),
        resolve::driver_on_the_way(other, nodes) is None,
        0 < end <= tree::descend(nodes, 0, one, false).count,
        !agree(one, other, end),
    ensures
        ({
            let a = tree::descend(nodes, 0, one, false);
            let at = tree::ancestor(nodes, a.node, a.count - end);
            resolve::driver_on_the_way(other, loader::with_driver(nodes, at, node_drivers)) is None
        }),
{
    let a = tree::descend(nodes, 0, one, false);
    let b = tree::descend(nodes, 0, other, false);
    let at = tree::ancestor(nodes, a.node, a.count - end);
    let after = loader::with_driver(nodes, at, node_drivers);
    tree::lemma_descend(nodes, node_drivers, 0, one, false);
    tree::lemma_descend(nodes, node_drivers, 0, other, false);
    tree::lemma_ancestor(nodes, node_drivers, a.node, a.count - end);
    loader::driver_keeps_tree(nodes, at, node_drivers);
    assert(tree::grew(nodes, after));
    tree::lemma_descend_below(nodes, after, node_drivers, node_drivers + 1, other);
    assert forall|k: int| 0 <= k < b.count implies (#[trigger] tree::ancestor(nodes, b.node, k))
        != at by {
        if tree::ancestor(nodes, b.node, k) == at {
            lemma_same_node(nodes, node_drivers, one, other, end, b.count - k);
        }
    }
    lemma_nearest_off_the_way(nodes, node_drivers, b.node, b.count, at, node_drivers);
}

/// No driver opens more of the path than is tried.
spec fn opens_no_more(w: World, l: loader::LoaderView) -> bool {
    &&& forall|d: int, e: int|
        0 <= d < w.drivers && l.end < e <= l.components.len() ==> !(#[trigger] (w.opens_url)(
            d,
            l.components.take(e),
        ))
    &&& forall|d: int|
        0 <= d < l.next_driver ==> !(#[trigger] (w.opens_url)(d, l.components.take(l.end)))
}

/// Wherever another path still agrees with the path, some driver opens more of the
/// path.
pub open spec fn opens_beyond(
    w: World,
    one: Seq<path::ComponentView>,
    other: Seq<path::ComponentView>,
) -> bool {
    forall|k: int|
        0 < k && #[trigger] agree(one, other, k) ==> exists|d: int, e: int|
            0 <= d < w.drivers && k < e <= one.len() && #[trigger] (w.opens_url)(d, one.take(e))
}

/// What is known of a load under way that mounts nothing on the way of another path.
spec fn is_off_the_way(w: World, other: Seq<path::ComponentView>, run: Run) -> bool {
    let l = run.loader;
    &&& run.wf(w)
    &&& knows_place(run)
    &&& tree::no_prefix(other)
    &&& resolve::driver_on_the_way(other, run.nodes) is None
    &&& l.state != LoadState::FindNode
    &&& !l.needs_driver()
    &&& l.state == LoadState::FindDriverUrl ==> {
        &&& l.base == 0
        &&& opens_no_more(w, l)
        &&& opens_beyond(w, l.components, other)
    }
    &&& (l.state == LoadState::LoadFromDriver || l.state == LoadState::FindDriverData) ==> l.base
        > 0 && !agree(l.components, other, l.base)
}

proof fn lemma_directory_off_the_way(
    nodes: Seq<tree::NodeView>,
    node_drivers: int,
    at: int,
    fetch: bool,
    listed: types::FilesDirsView,
    other: Seq<path::ComponentView>,
)
    requires
        tree::is_tree(nodes, node_drivers),
        0 <= at < nodes.len(),
        tree::no_prefix(other),
    ensures
        resolve::driver_on_the_way(other, loader::directory_tree(nodes, at, fetch, listed))
            == resolve::driver_on_the_way(other, nodes),
{
    resolve::lemma_directory(nodes, node_drivers, at, fetch, listed);
    lemma_way_grown(
        nodes,
        loader::directory_tree(nodes, at, fetch, listed),
        node_drivers,
        other,
    );
}

proof fn lemma_url_off_the_way(w: World, other: Seq<path::ComponentView>, run: Run)
    requires
        is_off_the_way(w, other, run),
        run.loader.state == LoadState::FindDriverUrl,
    ensures
        resolve::driver_on_the_way(other, resolve::step(w, run).nodes) is None,
        resolve::step(w, run).is_open() ==> is_off_the_way(w, other, resolve::step(w, run)),
{
    let l = run.loader;
    let next = resolve::step(w, run);
    let mounted = run.mounts.len() as int;
    assert(next.wf(w)) by {
        resolve::every_step_comes_nearer(w, run);
    }
    assert(l.candidate() =~= l.components.take(l.end));
    if w.drivers > 0 && (w.opens_url)(l.next_driver, l.candidate()) {
        let added = loader::candidate_tree(l, run.nodes);
        if agree(l.components, other, l.end) {
            let (d, e) = choose|d: int, e: int|
                0 <= d < w.drivers && l.end < e <= l.components.len() && #[trigger] (w.opens_url)(
                    d,
                    l.components.take(e),
                );
            assert(!(w.opens_url)(d, l.components.take(e)));
        }
        lemma_added(w, run);
        lemma_way_grown(run.nodes, added, mounted, other);
        lemma_mounted_off_the_way(added, mounted, l.components, other, l.end);
        lemma_place_kept(added, mounted, l.components, l.end);
        assert(knows_place(next));
    } else if next.is_open() {
        assert(opens_no_more(w, next.loader)) by {
            assert forall|d: int, e: int|
                0 <= d < w.drivers && next.loader.end < e <= l.components.len() implies !(
            #[trigger] (w.opens_url)(d, l.components.take(e))) by {
                if e == l.end {
                    assert(d < l.next_driver || d == l.next_driver);
                }
            }
        }
    }
}

/// A driver at a node changes nothing in where a path leads.
proof fn lemma_place_kept(
    nodes: Seq<tree::NodeView>,
    node_drivers: int,
    components: Seq<path::ComponentView>,
    end: int,
)
    requires
        tree::is_tree(nodes, node_drivers),
        tree::no_prefix(components),
        0 < end <= tree::descend(nodes, 0, components, false).count,
    ensures
        ({
            let r = tree::descend(nodes, 0, components, false);
            let at = tree::ancestor(nodes, r.node, r.count - end);
            tree::descend(loader::with_driver(nodes, at, node_drivers), 0, components, false) == r
        }),
{
    let r = tree::descend(nodes, 0, components, false);
    let at = tree::ancestor(nodes, r.node, r.count - end);
    let after = loader::with_driver(nodes, at, node_drivers);
    tree::lemma_descend(nodes, node_drivers, 0, components, false);
    tree::lemma_ancestor(nodes, node_drivers, r.node, r.count - end);
    loader::driver_keeps_tree(nodes, at, node_drivers);
    assert(tree::grew(nodes, after));
    tree::lemma_descend_below(nodes, after, node_drivers, node_drivers + 1, components);
}

proof fn lemma_data_off_the_way(w: World, other: Seq<path::ComponentView>, run: Run)
    requires
        is_off_the_way(w, other, run),
        run.loader.state == LoadState::FindDriverData,
    ensures
        resolve::driver_on_the_way(other, resolve::step(w, run).nodes) is None,
        resolve::step(w, run).is_open() ==> is_off_the_way(w, other, resolve::step(w, run)),
{
    let l = run.loader;
    let next = resolve::step(w, run);
    let mounted = run.mounts.len() as int;
    assert(next.wf(w)) by {
        resolve::every_step_comes_nearer(w, run);
    }
    if w.drivers > 0 && (w.opens_data)(l.next_driver, l.data->0) {
        lemma_mounted_off_the_way(run.nodes, mounted, l.components, other, l.end);
        lemma_place_kept(run.nodes, mounted, l.components, l.end);
        assert(knows_place(next));
    } else {
        assert(next.nodes == run.nodes);
        assert(knows_place(run));
    }
}

proof fn lemma_driver_off_the_way(w: World, other: Seq<path::ComponentView>, run: Run)
    requires
        is_off_the_way(w, other, run),
        run.loader.state == LoadState::LoadFromDriver,
    ensures
        resolve::driver_on_the_way(other, resolve::step(w, run).nodes) is None,
        resolve::step(w, run).is_open() ==> is_off_the_way(w, other, resolve::step(w, run)),
{
    let l = run.loader;
    let next = resolve::step(w, run);
    let mounted = run.mounts.len() as int;
    let added = loader::candidate_tree(l, run.nodes);
    let listed = (w.list)(run.mount(), l.candidate());
    let fetch = loader::needs_listing(l, run.nodes);
    assert(next.wf(w)) by {
        resolve::every_step_comes_nearer(w, run);
    }
    lemma_added(w, run);
    lemma_way_grown(run.nodes, added, mounted, other);
    lemma_directory_off_the_way(
        added,
        mounted,
        loader::candidate_node(l, run.nodes),
        fetch,
        listed,
        other,
    );
    if next.is_open() {
        assert(knows_place(next));
        if agree(l.components, other, next.loader.base) {
            assert(agree(l.components, other, l.base));
        }
    }
}

proof fn lemma_off_the_way(w: World, other: Seq<path::ComponentView>, run: Run)
    requires
        is_off_the_way(w, other, run),
    ensures
        resolve::driver_on_the_way(other, resolve::finished(w, run).nodes) is None,
    decreases
            run.loader.distance(w.drivers).0,
            run.loader.distance(w.drivers).1,
            run.loader.distance(w.drivers).2,
            run.loader.distance(w.drivers).3,
            run.loader.distance(w.drivers).4,
{
    if run.is_open() {
        let next = resolve::step(w, run);
        let l = run.loader;
        resolve::every_step_comes_nearer(w, run);
        assert(resolve::finished(w, run) == resolve::finished(w, next));
        if l.state == LoadState::FindDriverUrl {
            lemma_url_off_the_way(w, other, run);
        } else if l.state == LoadState::FindDriverData {
            lemma_data_off_the_way(w, other, run);
        } else if l.state == LoadState::LoadFromDriver {
            lemma_driver_off_the_way(w, other, run);
        } else {
            let fetch = tree::needs_listing(run.nodes[l.node_index]);
            let listed = (w.list)(run.mount(), l.candidate());
            lemma_directory_off_the_way(
                run.nodes,
                run.mounts.len() as int,
                l.node_index,
                fetch,
                listed,
                other,
            );
        }
        if next.is_open() {
            lemma_off_the_way(w, other, next);
        } else {
            assert(resolve::finished(w, next) == next);
        }
    }
}

/// Components that have the same names are the same.
proof fn lemma_same_components(
    one: Seq<path::ComponentView>,
    other: Seq<path::ComponentView>,
    k: int,
)
    requires
        path::well_formed(one),
        path::well_formed(other),
        agree(one, other, k),
    ensures
        one.take(k) == other.take(k),
{
    assert forall|i: int| 0 <= i < k implies one[i] == other[i] by {
        path::lemma_names_differ(one, i, other, i);
    }
    assert(one.take(k) =~= other.take(k));
}

/// What a path resolves to does not depend on loads of other paths: where no driver is
/// on its way, and another path is loaded that leads on beyond all that the two have in
/// common, no driver is on its way after that either, and a load of it ends in what it
/// resolves to, as it does where nothing was loaded before.
pub proof fn loads_of_other_paths_do_not_matter(
    w: World,
    path: Seq<char>,
    earlier: Seq<char>,
    nodes: Seq<tree::NodeView>,
    mounts: Seq<Mount>,
)
    requires
        w.drivers >= 0,
        tree::is_tree(nodes, mounts.len() as int),
        path::path_components(path).len() > 0,
        resolve::driver_on_the_way(path::path_components(path), nodes) is None,
        resolve::driver_on_the_way(path::path_components(earlier), nodes) is None ==> forall|k: int|
            0 < k <= path::path_components(earlier).len() && k <= path::path_components(path).len()
                && #[trigger] path::path_components(earlier).take(k) == path::path_components(
                path,
            ).take(k) ==> exists|d: int, e: int|
                0 <= d < w.drivers && k < e <= path::path_components(earlier).len()
                    && #[trigger] (w.opens_url)(d, path::path_components(earlier).take(e)),
    ensures
        ({
            let first = resolve::finished(w, resolve::start(earlier, nodes, mounts));
            let components = path::path_components(path);
            &&& resolve::driver_on_the_way(components, first.nodes) is None
            &&& resolve::tells(
                again(w, path, first),
                resolve::resolve_url(w, components, components.len() as int, 0),
            )
        }),
{
    let one = path::path_components(earlier);
    let other = path::path_components(path);
    let mounted = mounts.len() as int;
    let begun = resolve::start(earlier, nodes, mounts);
    let first = resolve::finished(w, begun);
    resolve::lemma_start(w, earlier, nodes, mounts);
    resolve::lemma_start(w, path, nodes, mounts);
    if one.len() == 0 {
        let second = resolve::step(w, begun);
        resolve::every_step_comes_nearer(w, begun);
        resolve::every_step_comes_nearer(w, second);
        let third = resolve::step(w, second);
        assert(first == resolve::finished(w, second));
        assert(resolve::finished(w, second) == resolve::finished(w, third));
        assert(resolve::finished(w, third) == third);
    } else {
        let reached = tree::descend(nodes, 0, one, false);
        tree::lemma_descend(nodes, mounted, 0, one, false);
        tree::lemma_descend_ends(nodes, mounted, 0, one);
        loader::lemma_nearest_driver(nodes, mounted, reached.node, reached.count);
        lemma_ways_part(nodes, mounted, one, other);
        if resolve::driver_on_the_way(one, nodes) is None {
            path::components_are_well_formed(path);
            path::components_are_well_formed(earlier);
            assert forall|k: int| 0 < k && #[trigger] agree(one, other, k) implies exists|
                d: int,
                e: int,
            |
                0 <= d < w.drivers && k < e <= one.len() && #[trigger] (w.opens_url)(
                    d,
                    one.take(e),
                ) by {
                lemma_same_components(one, other, k);
            }
        }
        resolve::lemma_placed(w, earlier, nodes, mounts);
        let placed = resolve::placed(earlier, nodes, mounts);
        assert(knows_place(placed));
        lemma_off_the_way(w, other, placed);
    }
    resolve::a_load_only_adds_to_the_tree(w, earlier, nodes, mounts);
    resolve::load_ends_in_what_the_path_resolves_to(w, path, first.nodes, first.mounts);
}

/// Paths that lead to the same node have the same components: what was mounted or listed
/// under one path is never found by another.
pub proof fn different_paths_lead_to_different_nodes(
    one: Seq<char>,
    other: Seq<char>,
    nodes: Seq<tree::NodeView>,
    mounts: Seq<Mount>,
)
    requires
        tree::is_tree(nodes, mounts.len() as int),
        tree::descend(nodes, 0, path::path_components(one), false).count == path::path_components(
            one,
        ).len(),
        tree::descend(nodes, 0, path::path_components(other), false).count
            == path::path_components(other).len(),
        tree::descend(nodes, 0, path::path_components(one), false).node == tree::descend(
            nodes,
            0,
            path::path_components(other),
            false,
        ).node,
    ensures
        path::path_components(one) == path::path_components(other),
{
    let a = path::path_components(one);
    let b = path::path_components(other);
    path::components_are_well_formed(one);
    path::components_are_well_formed(other);
    lemma_same_node(nodes, mounts.len() as int, a, b, a.len() as int, b.len() as int);
    lemma_same_components(a, b, a.len() as int);
    assert(a.take(a.len() as int) =~= a);
    assert(b.take(b.len() as int) =~= b);
}

/// What was mounted since a load started is on the way of its path: the last driver is
/// the nearest there, and where it was mounted by a url, that is what leads to it.
spec fn is_mounted_on_the_way(
    components: Seq<path::ComponentView>,
    mounts: Seq<Mount>,
    run: Run,
) -> bool {
    run.mounts == mounts || {
        &&& resolve::driver_on_the_way(components, run.nodes) matches Some(above)
        &&& run.nodes[above.node].driver_index == run.mounts.len() - 1
        &&& run.mounts.last() matches Mount::Url { driver, url } ==> url == components.take(
            above.count,
        )
    }
}

/// Nodes that only become more leave what was mounted on the way.
proof fn lemma_way_kept(
    components: Seq<path::ComponentView>,
    mounts: Seq<Mount>,
    run: Run,
    next: Run,
)
    requires
        is_mounted_on_the_way(components, mounts, run),
        tree::is_tree(run.nodes, run.mounts.len() as int),
        tree::is_tree(next.nodes, run.mounts.len() as int),
        tree::grew_unmounted(run.nodes, next.nodes),
        tree::no_prefix(components),
        next.mounts == run.mounts,
    ensures
        is_mounted_on_the_way(components, mounts, next),
{
    let mounted = run.mounts.len() as int;
    let reached = tree::descend(run.nodes, 0, components, false);
    lemma_way_grown(run.nodes, next.nodes, mounted, components);
    tree::lemma_descend(run.nodes, mounted, 0, components, false);
    loader::lemma_nearest_driver(run.nodes, mounted, reached.node, reached.count);
    if let Some(above) = resolve::driver_on_the_way(components, run.nodes) {
        assert(next.nodes[above.node].driver_index == run.nodes[above.node].driver_index);
    }
}

proof fn lemma_mounted_step(
    w: World,
    path: Seq<char>,
    nodes: Seq<tree::NodeView>,
    mounts: Seq<Mount>,
    run: Run,
)
    requires
        is_under_way(w, path, nodes, mounts, run),
        is_mounted_on_the_way(path::path_components(path), mounts, run),
    ensures
        is_mounted_on_the_way(path::path_components(path), mounts, resolve::step(w, run)),
{
    let l = run.loader;
    let next = resolve::step(w, run);
    let mounted = run.mounts.len() as int;
    if l.state == LoadState::FindDriverUrl {
        if w.drivers > 0 && (w.opens_url)(l.next_driver, l.candidate()) {
            let added = loader::candidate_tree(l, run.nodes);
            lemma_added(w, run);
            a_mounted_driver_is_found_again(added, mounted, l.components, l.end);
            assert(l.candidate() =~= l.components.take(l.end));
            assert(next.mounts.last() == (Mount::Url { driver: l.next_driver, url: l.candidate() }));
        }
    } else if l.state == LoadState::FindDriverData {
        if w.drivers > 0 && (w.opens_data)(l.next_driver, l.data->0) {
            lemma_data_opened(w, path, nodes, mounts, run);
            assert(next.loader.driver_index == mounted);
            assert(next.mounts.last() is Data);
        } else {
            assert(next.nodes == run.nodes && next.mounts == run.mounts);
        }
    } else if l.state == LoadState::LoadFromDriver {
        let added = loader::candidate_tree(l, run.nodes);
        let at = loader::candidate_node(l, run.nodes);
        let listed = (w.list)(run.mount(), l.candidate());
        let fetch = loader::needs_listing(l, run.nodes);
        lemma_added(w, run);
        resolve::lemma_directory(added, mounted, at, fetch, listed);
        let with_part = Run { nodes: added, ..run };
        lemma_way_kept(l.components, mounts, run, with_part);
        match (w.status)(run.mount(), l.candidate()) {
            types::LoadStatusView::Directory => {
                lemma_way_kept(l.components, mounts, with_part, next);
            },
            types::LoadStatusView::Data(data) => {},
            types::LoadStatusView::NotFound => {},
        }
    }
}

proof fn lemma_mounted(
    w: World,
    path: Seq<char>,
    nodes: Seq<tree::NodeView>,
    mounts: Seq<Mount>,
    run: Run,
)
    requires
        is_under_way(w, path, nodes, mounts, run),
        is_mounted_on_the_way(path::path_components(path), mounts, run),
    ensures
        is_mounted_on_the_way(path::path_components(path), mounts, resolve::finished(w, run)),
    decreases
            run.loader.distance(w.drivers).0,
            run.loader.distance(w.drivers).1,
            run.loader.distance(w.drivers).2,
            run.loader.distance(w.drivers).3,
            run.loader.distance(w.drivers).4,
{
    let next = resolve::step(w, run);
    resolve::every_step_comes_nearer(w, run);
    assert(resolve::finished(w, run) == resolve::finished(w, next));
    lemma_mounted_step(w, path, nodes, mounts, run);
    if next.is_open() {
        lemma_under_way(w, path, nodes, mounts, run);
        lemma_mounted(w, path, nodes, mounts, next);
    } else {
        assert(resolve::finished(w, next) == next);
    }
}

/// What a load mounts is found again by its path: where it mounted drivers, the last of
/// them is the nearest on the way of the path from then on, and where that was mounted by
/// a url, it is mounted where the url ends.
pub proof fn what_a_load_mounts_is_on_its_way(
    w: World,
    path: Seq<char>,
    nodes: Seq<tree::NodeView>,
    mounts: Seq<Mount>,
)
    requires
        w.drivers >= 0,
        tree::is_tree(nodes, mounts.len() as int),
        path::path_components(path).len() > 0,
        resolve::finished(w, resolve::start(path, nodes, mounts)).mounts != mounts,
    ensures
        ({
            let end = resolve::finished(w, resolve::start(path, nodes, mounts));
            let components = path::path_components(path);
            &&& resolve::driver_on_the_way(components, end.nodes) matches Some(above)
            &&& end.nodes[above.node].driver_index == end.mounts.len() - 1
            &&& end.mounts.last() matches Mount::Url { driver, url } ==> url == components.take(
                above.count,
            )
        }),
{
    let components = path::path_components(path);
    let mounted = mounts.len() as int;
    let reached = tree::descend(nodes, 0, components, false);
    resolve::lemma_start(w, path, nodes, mounts);
    tree::lemma_descend(nodes, mounted, 0, components, false);
    tree::lemma_descend_ends(nodes, mounted, 0, components);
    loader::lemma_nearest_driver(nodes, mounted, reached.node, reached.count);
    resolve::lemma_placed(w, path, nodes, mounts);
    lemma_mounted(w, path, nodes, mounts, resolve::placed(path, nodes, mounts));
}

} // verus!
