//! Slash-separated paths as lists of components.
use crate::text;
use vstd::prelude::*;

verus! {

/// One component of a path.
#[derive(Debug)]
pub enum Component {
    /// What stands before the root on systems that name their drives.
    Prefix(String),
    /// The slash at the start of an absolute path.
    RootDir,
    /// A dot at the start of a relative path.
    CurDir,
    /// Two dots.
    ParentDir,
    /// The name of a file or a directory.
    Normal(String),
}

/// What a [`Component`] stands for.
pub enum ComponentView {
    Prefix(Seq<char>),
    RootDir,
    CurDir,
    ParentDir,
    Normal(Seq<char>),
}

impl View for Component {
    type V = ComponentView;

    open spec fn view(&self) -> ComponentView {
        match self {
            Component::Prefix(text) => ComponentView::Prefix(text@),
            Component::RootDir => ComponentView::RootDir,
            Component::CurDir => ComponentView::CurDir,
            Component::ParentDir => ComponentView::ParentDir,
            Component::Normal(text) => ComponentView::Normal(text@),
        }
    }
}

/// What a list of components stands for.
pub open spec fn views(components: Seq<Component>) -> Seq<ComponentView> {
    Seq::new(components.len(), |i: int| components[i]@)
}

pub open spec fn dot() -> Seq<char> {
    seq!['.']
}

pub open spec fn dot_dot() -> Seq<char> {
    seq!['.', '.']
}

/// The texts between the slashes of `path`, empty ones included.
pub open spec fn segments(path: Seq<char>) -> Seq<Seq<char>>
    decreases path.len(),
{
    if path.len() == 0 {
        seq![Seq::<char>::empty()]
    } else {
        let before = segments(path.drop_last());
        if path.last() == '/' {
            before.push(Seq::<char>::empty())
        } else {
            before.drop_last().push(before.last().push(path.last()))
        }
    }
}

/// The components that the `i`th segment of a path stands for: none for an empty
/// segment, and none for a dot that does not start the path.
pub open spec fn segment_components(segment: Seq<char>, i: int) -> Seq<ComponentView> {
    if segment.len() == 0 {
        seq![]
    } else if segment == dot() {
        if i == 0 {
            seq![ComponentView::CurDir]
        } else {
            seq![]
        }
    } else if segment == dot_dot() {
        seq![ComponentView::ParentDir]
    } else {
        seq![ComponentView::Normal(segment)]
    }
}

/// The components that the first `n` segments stand for.
pub open spec fn segments_components(segs: Seq<Seq<char>>, n: int) -> Seq<ComponentView>
    decreases n,
{
    if n <= 0 {
        seq![]
    } else {
        segments_components(segs, n - 1) + segment_components(segs[n - 1], n - 1)
    }
}

/// The components of a path: the root where it starts with a slash, then what its
/// segments stand for. Repeated slashes, a slash at the end, and dots that do not
/// start the path leave no trace.
pub open spec fn path_components(path: Seq<char>) -> Seq<ComponentView> {
    let root = if path.len() > 0 && path[0] == '/' {
        seq![ComponentView::RootDir]
    } else {
        seq![]
    };
    root + segments_components(segments(path), segments(path).len() as int)
}

pub proof fn lemma_segments_nonempty(path: Seq<char>)
    ensures
        segments(path).len() > 0,
    decreases path.len(),
{
    if path.len() > 0 {
        lemma_segments_nonempty(path.drop_last());
    }
}

/// What the first `n` segments stand for does not depend on the others.
proof fn lemma_segments_components_agree(a: Seq<Seq<char>>, b: Seq<Seq<char>>, n: int)
    requires
        n <= a.len(),
        n <= b.len(),
        forall|i: int| 0 <= i < n ==> a[i] == b[i],
    ensures
        segments_components(a, n) == segments_components(b, n),
    decreases n,
{
    if n > 0 {
        lemma_segments_components_agree(a, b, n - 1);
    }
}

/// Puts the components that one segment stands for at the end of the list.
fn push_segment(components: &mut Vec<Component>, segment: String, first: bool)
    ensures
        views(final(components)@) == views(old(components)@) + segment_components(
            segment@,
            if first {
                0
            } else {
                1
            },
        ),
{
    let ghost before = views(components@);
    let chars = text::chars_of(segment.as_str());
    assert(dot().len() == 1 && dot_dot().len() == 2);
    if chars.len() == 0 {
        assert(views(components@) =~= before);
    } else if chars.len() == 1 && chars[0] == '.' {
        assert(segment@ =~= dot());
        if first {
            components.push(Component::CurDir);
            assert(views(components@) =~= before.push(ComponentView::CurDir));
        }
    } else if chars.len() == 2 && chars[0] == '.' && chars[1] == '.' {
        assert(segment@ =~= dot_dot());
        components.push(Component::ParentDir);
        assert(views(components@) =~= before.push(ComponentView::ParentDir));
    } else {
        assert(segment@ != dot());
        assert(segment@ != dot_dot());
        components.push(Component::Normal(segment));
        assert(views(components@) =~= before.push(ComponentView::Normal(segment@)));
    }
}

/// Splits a path into its components.
pub fn components(path: &str) -> (components: Vec<Component>)
    ensures
        views(components@) == path_components(path@),
{
    let chars = text::chars_of(path);
    let mut components: Vec<Component> = Vec::new();
    if chars.len() > 0 && chars[0] == '/' {
        components.push(Component::RootDir);
    }
    let ghost root = views(components@);
    assert(root =~= if path@.len() > 0 && path@[0] == '/' {
        seq![ComponentView::RootDir]
    } else {
        seq![]
    });
    let mut segment: String = String::new();
    let mut first: bool = true;
    let mut i: usize = 0;
    assert(path@.take(0) =~= Seq::<char>::empty());
    assert(views(components@) =~= root + segments_components(segments(path@.take(0)), 0));
    while i < chars.len()
        invariant
            i <= chars@.len(),
            chars@ == path@,
            segments(path@.take(i as int)).len() > 0,
            segment@ == segments(path@.take(i as int)).last(),
            first == (segments(path@.take(i as int)).len() == 1),
            views(components@) == root + segments_components(
                segments(path@.take(i as int)),
                segments(path@.take(i as int)).len() - 1,
            ),
        decreases chars@.len() - i,
    {
        let ghost before = segments(path@.take(i as int));
        let ghost after = segments(path@.take(i + 1));
        assert(path@.take(i + 1).drop_last() =~= path@.take(i as int));
        assert(path@.take(i + 1).last() == path@[i as int]);
        let c: char = chars[i];
        if c == '/' {
            push_segment(&mut components, segment, first);
            segment = String::new();
            first = false;
            proof {
                lemma_segments_components_agree(before, after, before.len() as int);
            }
            assert(views(components@) =~= root + segments_components(after, after.len() - 1));
        } else {
            segment.push(c);
            proof {
                lemma_segments_components_agree(before, after, before.len() - 1);
            }
        }
        i = i + 1;
    }
    assert(path@.take(i as int) =~= path@);
    push_segment(&mut components, segment, first);
    assert(views(components@) =~= path_components(path@));
    components
}

/// A path with a further path put behind it: an absolute one takes its place, any
/// other follows after a slash.
pub open spec fn join_path(base: Seq<char>, tail: Seq<char>) -> Seq<char> {
    if tail.len() > 0 && tail[0] == '/' {
        tail
    } else if base.len() == 0 || base.last() == '/' {
        base + tail
    } else {
        base.push('/') + tail
    }
}

/// Puts a path behind another.
pub fn join(base: &str, tail: &str) -> (joined: String)
    ensures
        joined@ == join_path(base@, tail@),
{
    let tail_chars = text::chars_of(tail);
    let base_chars = text::chars_of(base);
    if tail_chars.len() > 0 && tail_chars[0] == '/' {
        tail.to_owned()
    } else if base_chars.len() == 0 || base_chars[base_chars.len() - 1] == '/' {
        text::joined(base, tail)
    } else {
        let mut joined: String = base.to_owned();
        joined.push('/');
        joined.append(tail);
        joined
    }
}

/// How a component is written.
pub open spec fn component_text(component: ComponentView) -> Seq<char> {
    match component {
        ComponentView::Prefix(text) => text,
        ComponentView::RootDir => seq!['/'],
        ComponentView::CurDir => dot(),
        ComponentView::ParentDir => dot_dot(),
        ComponentView::Normal(text) => text,
    }
}

/// The path that a list of components makes up.
pub open spec fn path_text(components: Seq<ComponentView>) -> Seq<char>
    decreases components.len(),
{
    if components.len() == 0 {
        Seq::<char>::empty()
    } else {
        join_path(path_text(components.drop_last()), component_text(components.last()))
    }
}

/// Writes the components from `from` up to `to` as a path.
pub fn path_of(components: &Vec<Component>, from: usize, to: usize) -> (path: String)
    requires
        from <= to <= components@.len(),
    ensures
        path@ == path_text(views(components@).subrange(from as int, to as int)),
{
    let ghost all = views(components@);
    let mut path: String = String::new();
    let mut i: usize = from;
    assert(all.subrange(from as int, from as int) =~= seq![]);
    while i < to
        invariant
            from <= i <= to <= components@.len(),
            all == views(components@),
            path@ == path_text(all.subrange(from as int, i as int)),
        decreases to - i,
    {
        assert(all.subrange(from as int, i + 1).drop_last() =~= all.subrange(
            from as int,
            i as int,
        ));
        assert(all.subrange(from as int, i + 1).last() == all[i as int]);
        path = match &components[i] {
            Component::Prefix(text) => join(path.as_str(), text.as_str()),
            Component::RootDir => {
                proof {
                    reveal_strlit("/");
                    assert("/"@ =~= seq!['/']);
                }
                join(path.as_str(), "/")
            },
            Component::CurDir => {
                proof {
                    reveal_strlit(".");
                    assert("."@ =~= dot());
                }
                join(path.as_str(), ".")
            },
            Component::ParentDir => {
                proof {
                    reveal_strlit("..");
                    assert(".."@ =~= dot_dot());
                }
                join(path.as_str(), "..")
            },
            Component::Normal(text) => join(path.as_str(), text.as_str()),
        };
        i = i + 1;
    }
    path
}

/// The name of a file or a directory: not empty, no slash in it, and neither of
/// the two names that stand for a directory relative to another.
pub open spec fn is_name(text: Seq<char>) -> bool {
    &&& text.len() > 0
    &&& !text.contains('/')
    &&& text != dot()
    &&& text != dot_dot()
}

/// The lists of components that slash-separated paths have: the root and a dot
/// only at the start, names otherwise.
pub open spec fn well_formed(components: Seq<ComponentView>) -> bool {
    forall|i: int|
        0 <= i < components.len() ==> match #[trigger] components[i] {
            ComponentView::Prefix(_) => false,
            ComponentView::RootDir => i == 0,
            ComponentView::CurDir => i == 0,
            ComponentView::ParentDir => true,
            ComponentView::Normal(text) => is_name(text),
        }
}

/// A path behind a slash adds one segment.
proof fn lemma_segments_behind_slash(a: Seq<char>, b: Seq<char>)
    requires
        !b.contains('/'),
    ensures
        segments(a.push('/') + b) == segments(a).push(b),
    decreases b.len(),
{
    let whole = a.push('/') + b;
    if b.len() == 0 {
        assert(whole =~= a.push('/'));
        assert(whole.drop_last() =~= a);
        assert(b =~= Seq::<char>::empty());
    } else {
        let c = b.last();
        assert(b.contains(c));
        assert forall|i: int| 0 <= i < b.len() - 1 implies b.drop_last()[i] != '/' by {
            assert(b.contains(b[i]));
        }
        lemma_segments_behind_slash(a, b.drop_last());
        assert(whole.drop_last() =~= a.push('/') + b.drop_last());
        assert(segments(whole.drop_last()).drop_last() =~= segments(a));
        assert(b.drop_last().push(c) =~= b);
    }
}

/// A path without a slash is one segment.
proof fn lemma_segments_of_name(b: Seq<char>)
    requires
        !b.contains('/'),
    ensures
        segments(b) == seq![b],
    decreases b.len(),
{
    if b.len() == 0 {
        assert(b =~= Seq::<char>::empty());
    } else {
        let c = b.last();
        assert(b.contains(c));
        assert forall|i: int| 0 <= i < b.len() - 1 implies b.drop_last()[i] != '/' by {
            assert(b.contains(b[i]));
        }
        lemma_segments_of_name(b.drop_last());
        assert(b.drop_last().push(c) =~= b);
        assert(segments(b) =~= seq![b]);
    }
}

/// How a component other than the root is written: with a character, and no slash.
proof fn lemma_component_text(components: Seq<ComponentView>, i: int)
    requires
        well_formed(components),
        0 <= i < components.len(),
    ensures
        component_text(components[i]).len() > 0,
        components[i] !is RootDir ==> !component_text(components[i]).contains('/'),
{
    let text = component_text(components[i]);
    match components[i] {
        ComponentView::Prefix(_) => {},
        ComponentView::RootDir => {},
        ComponentView::CurDir => {},
        ComponentView::ParentDir => {},
        ComponentView::Normal(_) => {},
    }
}

/// The path of a list of components is empty only where the list is, and ends in
/// the way its last component does.
pub proof fn lemma_path_text_end(components: Seq<ComponentView>)
    requires
        well_formed(components),
        components.len() > 0,
    ensures
        path_text(components).len() > 0,
        path_text(components).last() == component_text(components.last()).last(),
{
    lemma_component_text(components, components.len() - 1);
}

/// Writing components as a path and splitting it again gives the same components.
pub proof fn components_of_path_text(components: Seq<ComponentView>)
    requires
        well_formed(components),
    ensures
        path_components(path_text(components)) == components,
    decreases components.len(),
{
    let path = path_text(components);
    let segs = segments(path);
    reveal_with_fuel(segments_components, 3);
    if components.len() == 0 {
        assert(path_components(path) =~= components);
    } else {
        let before = components.drop_last();
        let last = components.last();
        let text = component_text(last);
        let head = path_text(before);
        lemma_component_text(components, components.len() - 1);
        assert(text.contains(text[0]));
        if last is RootDir {
            assert(components.len() == 1);
            assert(path =~= seq!['/']);
            assert(path.drop_last() =~= Seq::<char>::empty());
            assert(segs =~= seq![Seq::<char>::empty(), Seq::<char>::empty()]);
            assert(path_components(path) =~= components);
        } else if before.len() == 0 {
            assert(path =~= text);
            lemma_segments_of_name(text);
            assert(dot().len() == 1 && dot_dot().len() == 2);
            assert(segment_components(text, 0) =~= seq![last]);
            assert(path_components(path) =~= components);
        } else {
            assert(well_formed(before)) by {
                assert forall|i: int| 0 <= i < before.len() implies before[i] == components[i] by {}
            }
            lemma_path_text_end(before);
            lemma_component_text(before, before.len() - 1);
            let end = component_text(before.last());
            assert(dot().len() == 1 && dot_dot().len() == 2);
            assert(last !is CurDir);
            if before.last() is RootDir {
                assert(before =~= seq![ComponentView::RootDir]);
                assert(before.drop_last() =~= seq![]);
                assert(head =~= seq!['/']);
                assert(path =~= Seq::<char>::empty().push('/') + text);
                lemma_segments_behind_slash(Seq::<char>::empty(), text);
                assert(segs =~= seq![Seq::<char>::empty(), text]);
                assert(segment_components(text, 1) =~= seq![last]);
                assert(path_components(path) =~= components);
            } else {
                assert(end.contains(end.last()));
                assert(path =~= head.push('/') + text);
                lemma_segments_behind_slash(head, text);
                lemma_segments_nonempty(head);
                components_of_path_text(before);
                let n = segments(head).len() as int;
                lemma_segments_components_agree(segments(head), segs, n);
                assert(segs[n] == text);
                assert(segment_components(text, n) =~= seq![last]);
                assert(path[0] == head[0]);
                assert(path_components(path) =~= path_components(head).push(last));
                assert(before.push(last) =~= components);
            }
        }
    }
}

/// No segment has a slash in it, and the first one is empty where the path starts
/// with a slash.
proof fn lemma_segments(path: Seq<char>)
    ensures
        segments(path).len() > 0,
        forall|i: int| 0 <= i < segments(path).len() ==> !(#[trigger] segments(path)[i]).contains('/'),
        path.len() > 0 && path[0] == '/' ==> segments(path)[0].len() == 0 && segments(path).len() > 1,
    decreases path.len(),
{
    if path.len() > 0 {
        let before = segments(path.drop_last());
        let c = path.last();
        lemma_segments(path.drop_last());
        if c != '/' {
            let grown = before.last().push(c);
            assert forall|k: int| 0 <= k < grown.len() implies grown[k] != '/' by {
                if k < before.last().len() {
                    assert(before.last().contains(before.last()[k]));
                }
            }
        }
    }
}

proof fn lemma_segments_components(segs: Seq<Seq<char>>, n: int)
    requires
        0 <= n <= segs.len(),
        forall|i: int| 0 <= i < segs.len() ==> !(#[trigger] segs[i]).contains('/'),
    ensures
        forall|k: int|
            0 <= k < segments_components(segs, n).len() ==> match #[trigger] segments_components(
                segs,
                n,
            )[k] {
                ComponentView::Prefix(_) => false,
                ComponentView::RootDir => false,
                ComponentView::CurDir => k == 0 && segs[0] == dot(),
                ComponentView::ParentDir => true,
                ComponentView::Normal(text) => is_name(text),
            },
    decreases n,
{
    if n > 0 {
        lemma_segments_components(segs, n - 1);
        let before = segments_components(segs, n - 1);
        let next = segment_components(segs[n - 1], n - 1);
        let all = segments_components(segs, n);
        assert(n == 1 ==> before.len() == 0);
        assert forall|k: int| 0 <= k < all.len() implies match #[trigger] all[k] {
            ComponentView::Prefix(_) => false,
            ComponentView::RootDir => false,
            ComponentView::CurDir => k == 0 && segs[0] == dot(),
            ComponentView::ParentDir => true,
            ComponentView::Normal(text) => is_name(text),
        } by {
            if k < before.len() {
                assert(all[k] == before[k]);
            } else {
                assert(all[k] == next[k - before.len()]);
            }
        }
    }
}

/// The components of every path are well formed.
pub proof fn components_are_well_formed(path: Seq<char>)
    ensures
        well_formed(path_components(path)),
{
    let segs = segments(path);
    let parts = segments_components(segs, segs.len() as int);
    let all = path_components(path);
    lemma_segments(path);
    lemma_segments_components(segs, segs.len() as int);
    let shift: int = if path.len() > 0 && path[0] == '/' {
        1
    } else {
        0
    };
    assert(dot().len() == 1);
    assert forall|i: int| 0 <= i < all.len() implies match #[trigger] all[i] {
        ComponentView::Prefix(_) => false,
        ComponentView::RootDir => i == 0,
        ComponentView::CurDir => i == 0,
        ComponentView::ParentDir => true,
        ComponentView::Normal(text) => is_name(text),
    } by {
        if i >= shift {
            assert(all[i] == parts[i - shift]);
        }
    }
}

/// Components that have a name in the tree of nodes.
pub open spec fn is_named(component: ComponentView) -> bool {
    component is Prefix || component is RootDir || component is Normal
}

/// The name of a component in the tree: the root has the slash for a name, unless
/// a prefix came before it, which then stands for both. Dots, which no node is made for,
/// count as named by how they are written.
pub open spec fn component_name(component: ComponentView, had_prefix: bool) -> Seq<char> {
    match component {
        ComponentView::RootDir => if had_prefix {
            Seq::<char>::empty()
        } else {
            seq!['/']
        },
        ComponentView::Prefix(text) => text,
        ComponentView::Normal(text) => text,
        ComponentView::CurDir => dot(),
        ComponentView::ParentDir => dot_dot(),
    }
}

/// The name of a component, and whether a prefix has been met.
pub fn get_component_name(component: &Component, had_prefix: &mut bool) -> (name: String)
    requires
        is_named(component@),
    ensures
        name@ == component_name(component@, *old(had_prefix)),
        component@ matches ComponentView::Normal(text) ==> name@ == text,
        component@ matches ComponentView::Prefix(text) ==> name@ == text,
        component@ is RootDir && !*old(had_prefix) ==> name@ == seq!['/'],
        component@ is RootDir && *old(had_prefix) ==> name@.len() == 0,
        *final(had_prefix) == (*old(had_prefix) || component@ is Prefix),
{
    match component {
        Component::RootDir => {
            if !*had_prefix {
                let mut name: String = String::new();
                name.push('/');
                assert(name@ =~= seq!['/']);
                name
            } else {
                String::new()
            }
        },
        Component::Prefix(text) => {
            *had_prefix = true;
            text.clone()
        },
        Component::Normal(text) => text.clone(),
        _ => String::new(),
    }
}

/// Whether a prefix has been met before the `i`th component.
pub open spec fn prefix_before(components: Seq<ComponentView>, i: int, had_prefix: bool) -> bool {
    had_prefix || exists|j: int| 0 <= j < i && (#[trigger] components[j]) is Prefix
}

/// The names of a list of components.
pub open spec fn component_names(components: Seq<ComponentView>, had_prefix: bool) -> Seq<Seq<char>> {
    Seq::new(
        components.len(),
        |i: int| component_name(components[i], prefix_before(components, i, had_prefix)),
    )
}

/// What joining two paths comes to. An absolute path takes the place of the other.
/// Otherwise the joined path starts with the one and ends with the other, and there is
/// nothing between them but one slash, which is there unless the first is empty or ends
/// in one itself.
pub proof fn joined_paths_meet_at_one_slash(base: Seq<char>, tail: Seq<char>)
    ensures
        ({
            let joined = join_path(base, tail);
            let between = joined.len() - base.len() - tail.len();
            if tail.len() > 0 && tail[0] == '/' {
                joined == tail
            } else {
                &&& base.is_prefix_of(joined)
                &&& tail.is_suffix_of(joined)
                &&& 0 <= between <= 1
                &&& between == 0 <==> base.len() == 0 || base[base.len() - 1] == '/'
                &&& between == 1 ==> joined[base.len() as int] == '/'
            }
        }),
{
    let joined = join_path(base, tail);
    if !(tail.len() > 0 && tail[0] == '/') {
        assert(joined.take(base.len() as int) =~= base);
        assert(joined.skip(joined.len() - tail.len()) =~= tail);
    }
}

/// A component behind others is written behind one slash, or behind the slash that the
/// root is, and one alone is written as it is.
pub proof fn a_further_component_follows_after_one_slash(
    components: Seq<ComponentView>,
    name: Seq<char>,
)
    requires
        well_formed(components),
        name.len() > 0,
        !name.contains('/'),
    ensures
        path_text(components.push(ComponentView::Normal(name))) == if components.len() == 0 {
            name
        } else if components == seq![ComponentView::RootDir] {
            seq!['/'] + name
        } else {
            path_text(components) + seq!['/'] + name
        },
        path_text(components.push(ComponentView::ParentDir)) == if components.len() == 0 {
            seq!['.', '.']
        } else if components == seq![ComponentView::RootDir] {
            seq!['/', '.', '.']
        } else {
            path_text(components) + seq!['/', '.', '.']
        },
        path_text(seq![ComponentView::RootDir]) == seq!['/'],
        path_text(seq![ComponentView::CurDir]) == seq!['.'],
{
    let root = seq![ComponentView::RootDir];
    let cur = seq![ComponentView::CurDir];
    let named = components.push(ComponentView::Normal(name));
    let up = components.push(ComponentView::ParentDir);
    assert(name.contains(name[0]));
    assert(root.drop_last() =~= seq![]);
    assert(cur.drop_last() =~= seq![]);
    assert(path_text(seq![]) =~= Seq::<char>::empty());
    assert(path_text(root) =~= seq!['/']);
    assert(path_text(cur) =~= seq!['.']);
    assert(named.drop_last() =~= components);
    assert(up.drop_last() =~= components);
    if components.len() == 0 {
        assert(components =~= seq![]);
        assert(path_text(named) =~= name);
        assert(path_text(up) =~= seq!['.', '.']);
    } else {
        let last = components.last();
        let end = component_text(last);
        lemma_path_text_end(components);
        lemma_component_text(components, components.len() - 1);
        if last is RootDir {
            assert(components =~= root);
            assert(path_text(named) =~= seq!['/'] + name);
            assert(path_text(up) =~= seq!['/', '.', '.']);
        } else {
            assert(end.contains(end.last()));
            assert(components != root) by {
                assert(root.last() is RootDir);
            }
            assert(path_text(named) =~= path_text(components) + seq!['/'] + name);
            assert(path_text(up) =~= path_text(components) + seq!['/', '.', '.']);
        }
    }
}

/// Names are written with one slash between neighbours and nothing else: the path is as
/// long as they are together, with one character more for each but the first.
pub proof fn names_are_written_with_one_slash_between(names: Seq<Seq<char>>)
    requires
        names.len() > 0,
        forall|i: int|
            0 <= i < names.len() ==> (#[trigger] names[i]).len() > 0 && !names[i].contains('/')
                && names[i] != seq!['.'] && names[i] != seq!['.', '.'],
    ensures
        ({
            let path = path_text(names.map_values(|name: Seq<char>| ComponentView::Normal(name)));
            &&& path.len() == names.fold_left(0, |sum: int, name: Seq<char>| sum + name.len())
                + names.len() - 1
            &&& path[0] != '/'
            &&& path.last() != '/'
            &&& forall|i: int| 0 < i < path.len() && path[i] == '/' ==> #[trigger] path[i - 1] != '/'
        }),
    decreases names.len(),
{
    let to_view = |name: Seq<char>| ComponentView::Normal(name);
    let add_len = |sum: int, name: Seq<char>| sum + name.len();
    let all = names.map_values(to_view);
    let fewer = names.drop_last();
    let before = fewer.map_values(to_view);
    let name = names.last();
    let path = path_text(all);
    reveal_with_fuel(Seq::fold_left, 2);
    assert(well_formed(before)) by {
        assert forall|i: int| 0 <= i < before.len() implies is_name(fewer[i]) && #[trigger] before[i]
            == ComponentView::Normal(fewer[i]) by {
            assert(fewer[i] == names[i]);
        }
    }
    assert(all =~= before.push(ComponentView::Normal(name)));
    assert(name == names[names.len() - 1]);
    a_further_component_follows_after_one_slash(before, name);
    assert forall|i: int| 0 <= i < name.len() implies name[i] != '/' by {
        assert(name.contains(name[i]));
    }
    if fewer.len() > 0 {
        assert forall|i: int| 0 <= i < fewer.len() implies (#[trigger] fewer[i]).len() > 0
            && !fewer[i].contains('/') && fewer[i] != seq!['.'] && fewer[i] != seq!['.', '.'] by {
            assert(fewer[i] == names[i]);
        }
        names_are_written_with_one_slash_between(fewer);
        let head = path_text(before);
        assert(before[0] is Normal);
        assert(before != seq![ComponentView::RootDir]);
        assert(path == head + seq!['/'] + name);
        assert forall|i: int| 0 < i < path.len() && path[i] == '/' implies #[trigger] path[i - 1]
            != '/' by {
            if i < head.len() {
                assert(path[i] == head[i] && path[i - 1] == head[i - 1]);
            } else if i == head.len() {
                assert(path[i - 1] == head.last());
            } else {
                assert(path[i] == name[i - head.len() - 1]);
            }
        }
    } else {
        assert(path == name);
    }
}

/// The components of a path without a slash: none where it is empty, else one.
pub proof fn a_path_without_a_slash_has_one_component(path: Seq<char>)
    requires
        !path.contains('/'),
    ensures
        path_components(path) == if path.len() == 0 {
            seq![]
        } else if path == seq!['.'] {
            seq![ComponentView::CurDir]
        } else if path == seq!['.', '.'] {
            seq![ComponentView::ParentDir]
        } else {
            seq![ComponentView::Normal(path)]
        },
{
    reveal_with_fuel(segments_components, 2);
    lemma_segments_of_name(path);
    if path.len() > 0 {
        assert(path.contains(path[0]));
    }
    assert(path_components(path) =~= segment_components(path, 0));
}

/// What follows the last slash of a path adds its component to those of what comes
/// before, and changes none of them. Nothing, and a dot, add none: so repeated slashes, a
/// slash at the end, and dots leave no trace. A slash with nothing before it is the
/// root.
pub proof fn what_follows_a_slash_adds_its_component(before: Seq<char>, last: Seq<char>)
    requires
        !last.contains('/'),
    ensures
        path_components(before + seq!['/'] + last) == (if before.len() == 0 {
            seq![ComponentView::RootDir]
        } else {
            path_components(before)
        }) + (if last.len() == 0 || last == seq!['.'] {
            seq![]
        } else if last == seq!['.', '.'] {
            seq![ComponentView::ParentDir]
        } else {
            seq![ComponentView::Normal(last)]
        }),
{
    let path = before.push('/') + last;
    let segs = segments(path);
    let n = segments(before).len() as int;
    assert(before + seq!['/'] + last =~= path);
    lemma_segments_behind_slash(before, last);
    lemma_segments_nonempty(before);
    lemma_segments_components_agree(segments(before), segs, n);
    assert(segs[n] == last);
    assert(segments_components(segs, n + 1) == segments_components(segs, n) + segment_components(
        last,
        n,
    ));
    if before.len() == 0 {
        reveal_with_fuel(segments_components, 2);
        assert(before =~= Seq::<char>::empty());
        assert(segments_components(segments(before), 1) =~= seq![]);
        assert(path[0] == '/');
    } else {
        assert(path[0] == before[0]);
    }
    assert(path_components(path) =~= (if before.len() == 0 {
        seq![ComponentView::RootDir]
    } else {
        path_components(before)
    }) + segment_components(last, n));
}

/// A component has its whole text for a name, and the root has the slash.
pub proof fn names_are_whole_texts(text: Seq<char>, had_prefix: bool)
    ensures
        component_name(ComponentView::Normal(text), had_prefix) == text,
        component_name(ComponentView::Prefix(text), had_prefix) == text,
        component_name(ComponentView::RootDir, false) == seq!['/'],
        component_name(ComponentView::RootDir, true).len() == 0,
{
}

/// Different components of paths have different names in the tree.
pub proof fn different_components_have_different_names(
    one: Seq<char>,
    i: int,
    other: Seq<char>,
    j: int,
)
    requires
        0 <= i < path_components(one).len(),
        0 <= j < path_components(other).len(),
        path_components(one)[i] != path_components(other)[j],
    ensures
        component_name(path_components(one)[i], false) != component_name(
            path_components(other)[j],
            false,
        ),
{
    components_are_well_formed(one);
    components_are_well_formed(other);
    if component_name(path_components(one)[i], false) == component_name(
        path_components(other)[j],
        false,
    ) {
        lemma_names_differ(path_components(one), i, path_components(other), j);
    }
}

/// Components of the same name are the same.
pub proof fn lemma_names_differ(
    one: Seq<ComponentView>,
    i: int,
    other: Seq<ComponentView>,
    j: int,
)
    requires
        well_formed(one),
        well_formed(other),
        0 <= i < one.len(),
        0 <= j < other.len(),
        component_name(one[i], false) == component_name(other[j], false),
    ensures
        one[i] == other[j],
{
    let slash = seq!['/'];
    assert(slash[0] == '/');
    assert(slash.contains('/'));
    assert(dot()[0] == '.' && dot_dot()[0] == '.');
    assert(dot().len() == 1 && dot_dot().len() == 2);
}

/// The nodes of a path are named after its components, each after its own.
pub proof fn every_component_gives_its_name(path: Seq<char>)
    ensures
        ({
            let components = path_components(path);
            let names = component_names(components, false);
            &&& names.len() == components.len()
            &&& forall|i: int|
                0 <= i < components.len() ==> match #[trigger] components[i] {
                    ComponentView::Normal(text) => names[i] == text,
                    ComponentView::RootDir => names[i] == seq!['/'],
                    _ => true,
                }
        }),
{
    let components = path_components(path);
    let names = component_names(components, false);
    components_are_well_formed(path);
    assert forall|i: int| 0 <= i < components.len() implies match #[trigger] components[i] {
        ComponentView::Normal(text) => names[i] == text,
        ComponentView::RootDir => names[i] == seq!['/'],
        _ => true,
    } by {
        assert(!prefix_before(components, i, false));
    }
}

} // verus!
