//! Groups of nodes: the trees that they form and how these grow.

use vstd::prelude::*;

use crate::pdg_spec::{ExportableNodeModel, ExportablePDGNode, PDGSpecNodeKind};
use crate::text::{copy_texts, texts};

verus! {

/// A group of nodes: a module instance at a point in time.
#[derive(Debug)]
pub struct GraphNodeHierarchy {
    pub instance_name: String,
    /// Whether the contents of the group are shown in place of the group.
    pub expanded: bool,
    /// The node that stands for the group.
    pub pdg_node: ExportablePDGNode,
    /// The nodes of the graph that belong directly to the group.
    pub node_indices: Vec<usize>,
    /// The groups below this one, by their place in the list of groups.
    pub children: Vec<usize>,
    pub parent: Option<usize>,
    pub group_id: usize,
}

/// Content of a [`GraphNodeHierarchy`].
#[verifier::ext_equal]
pub struct GroupModel {
    pub instance_name: Seq<char>,
    pub expanded: bool,
    pub pdg_node: ExportableNodeModel,
    pub node_indices: Seq<usize>,
    pub children: Seq<usize>,
    pub parent: Option<usize>,
    pub group_id: usize,
}

impl View for GraphNodeHierarchy {
    type V = GroupModel;

    open spec fn view(&self) -> GroupModel {
        GroupModel {
            instance_name: self.instance_name@,
            expanded: self.expanded,
            pdg_node: self.pdg_node@,
            node_indices: self.node_indices@,
            children: self.children@,
            parent: self.parent,
            group_id: self.group_id,
        }
    }
}

/// Contents of a list of groups.
pub open spec fn group_models(groups: Seq<GraphNodeHierarchy>) -> Seq<GroupModel> {
    Seq::new(groups.len(), |i: int| groups[i]@)
}

/// The node that stands for a group.
pub open spec fn hier_node(
    name: Seq<char>,
    timestamp: i64,
    instance_path: Seq<Seq<char>>,
) -> ExportableNodeModel {
    ExportableNodeModel {
        file: Seq::empty(),
        line: 0,
        char: 0,
        name,
        kind: PDGSpecNodeKind::Definition,
        clocked: false,
        instance_path,
        related_signal: None,
        sim_data: None,
        timestamp,
        is_chisel_assignment: false,
    }
}

/// Creates the node that stands for a group.
pub fn create_hier_pdg_node(name: String, timestamp: i64, instance_path: Vec<String>) -> (r:
    ExportablePDGNode)
    ensures
        r@ == hier_node(name@, timestamp, texts(instance_path@)),
{
    let node = ExportablePDGNode {
        file: String::new(),
        line: 0,
        char: 0,
        name,
        kind: PDGSpecNodeKind::Definition,
        clocked: false,
        instance_path,
        related_signal: None,
        sim_data: None,
        timestamp,
        is_chisel_assignment: false,
    };
    node
}

/// Whether every group comes after the group that it lies in.
pub open spec fn parents_first(groups: Seq<GroupModel>) -> bool {
    forall|i: int|
        0 <= i < groups.len() ==> ((#[trigger] groups[i]).parent matches Some(p) ==> p < i)
}

/// The outermost group that is collapsed, among a group and the groups that it lies in.
pub open spec fn highest_collapsed(groups: Seq<GroupModel>, group: int) -> Option<int>
    decreases group,
{
    let own = if groups[group].expanded {
        None
    } else {
        Some(group)
    };
    match groups[group].parent {
        Some(p) => if 0 <= p < group {
            match highest_collapsed(groups, p as int) {
                Some(outer) => Some(outer),
                None => own,
            }
        } else {
            own
        },
        None => own,
    }
}

/// Finds the outermost group that is collapsed, among a group and the groups that it lies in, and
/// returns the node that stands for it; `None` where all of them are expanded.
pub fn get_highest_hier_node(groups: &Vec<GraphNodeHierarchy>, hierarchy: usize) -> (r: Option<
    ExportablePDGNode,
>)
    requires
        hierarchy < groups.len(),
        parents_first(group_models(groups@)),
    ensures
        match highest_collapsed(group_models(groups@), hierarchy as int) {
            Some(group) => r matches Some(node) && node@ == group_models(
                groups@,
            )[group].pdg_node,
            None => r is None,
        },
{
    let ghost models = group_models(groups@);
    let ghost goal = highest_collapsed(models, hierarchy as int);
    let mut current: usize = hierarchy;
    let mut highest: Option<usize> = None;
    loop
        invariant
            current < groups.len(),
            models == group_models(groups@),
            parents_first(models),
            highest matches Some(h) ==> h < groups.len(),
            goal == (match highest_collapsed(models, current as int) {
                Some(outer) => Some(outer),
                None => match highest {
                    Some(h) => Some(h as int),
                    None => None,
                },
            }),
        ensures
            highest matches Some(h) ==> h < groups.len(),
            goal == (match highest {
                Some(h) => Some(h as int),
                None => None,
            }),
        decreases current,
    {
        assert(models[current as int] == groups@[current as int]@);
        if !groups[current].expanded {
            highest = Some(current);
        }
        match groups[current].parent {
            Some(parent) => {
                current = parent;
            },
            None => {
                break ;
            },
        }
    }
    match highest {
        Some(group) => Some(groups[group].pdg_node.clone()),
        None => None,
    }
}

/// The path of the module instance that a group stands for.
pub open spec fn path_of(group: GroupModel) -> Seq<Seq<char>> {
    group.pdg_node.instance_path
}

/// The point in time that a group belongs to.
pub open spec fn time_of(group: GroupModel) -> i64 {
    group.pdg_node.timestamp
}

/// Whether a group stands for a path at a point in time.
pub open spec fn stands_for(group: GroupModel, time: int, path: Seq<Seq<char>>) -> bool {
    time_of(group) == time && path_of(group) == path
}

/// Whether there is a group for a path at a point in time.
pub open spec fn has_group(groups: Seq<GroupModel>, time: int, path: Seq<Seq<char>>) -> bool {
    exists|i: int| 0 <= i < groups.len() && stands_for(#[trigger] groups[i], time, path)
}

/// Whether one path begins another.
pub open spec fn path_begins(a: Seq<Seq<char>>, b: Seq<Seq<char>>) -> bool {
    a.len() <= b.len() && a == b.take(a.len() as int)
}

/// Whether `i` lies directly in `p`.
pub open spec fn lies_in(groups: Seq<GroupModel>, i: int, p: int) -> bool {
    groups[i].parent matches Some(q) && q == p
}

/// Whether a group has the name, the node and the place that follow from the group it lies in.
pub open spec fn group_ok(groups: Seq<GroupModel>, offset: int, i: int) -> bool {
    let g = groups[i];
    &&& g.group_id == offset + i
    &&& match g.parent {
        None => {
            &&& g.instance_name == "top"@
            &&& g.expanded
            &&& g.pdg_node == hier_node("module_top"@, time_of(g), Seq::empty())
        },
        Some(p) => {
            &&& p < i
            &&& !g.expanded
            &&& g.pdg_node == hier_node(
                "module_"@ + g.instance_name,
                time_of(groups[p as int]),
                path_of(groups[p as int]).push(g.instance_name),
            )
        },
    }
}

/// Whether the children of a group are the groups that lie directly in it, in order.
pub open spec fn children_ok(groups: Seq<GroupModel>, i: int) -> bool {
    let children = groups[i].children;
    &&& forall|k: int|
        0 <= k < children.len() ==> (#[trigger] children[k]) < groups.len() && lies_in(
            groups,
            children[k] as int,
            i,
        )
    &&& forall|j: int, k: int|
        0 <= j < k < children.len() ==> (#[trigger] children[j]) < (#[trigger] children[k])
    &&& forall|c: int|
        0 <= c < groups.len() && #[trigger] lies_in(groups, c, i) ==> children.contains(c as usize)
}

/// Whether the groups form trees, with one group for a path at a point in time.
pub open spec fn trees_ok(groups: Seq<GroupModel>, offset: int) -> bool {
    &&& groups.len() <= usize::MAX
    &&& forall|i: int| 0 <= i < groups.len() ==> #[trigger] group_ok(groups, offset, i)
    &&& forall|i: int| 0 <= i < groups.len() ==> #[trigger] children_ok(groups, i)
    &&& forall|i: int, j: int|
        0 <= i < j < groups.len() ==> !(time_of(#[trigger] groups[i]) == time_of(
            #[trigger] groups[j],
        ) && path_of(groups[i]) == path_of(groups[j]))
}

/// Whether two lists of groups differ at most in the nodes that belong to the groups.
pub open spec fn same_trees(a: Seq<GroupModel>, b: Seq<GroupModel>) -> bool {
    &&& a.len() == b.len()
    &&& forall|i: int|
        0 <= i < a.len() ==> (#[trigger] b[i]) == (GroupModel {
            node_indices: b[i].node_indices,
            ..a[i]
        })
}

/// What a group looks like does not depend on the nodes that belong to it.
pub proof fn trees_stay_ok(a: Seq<GroupModel>, b: Seq<GroupModel>, offset: int)
    requires
        trees_ok(a, offset),
        same_trees(a, b),
    ensures
        trees_ok(b, offset),
{
    assert forall|i: int| 0 <= i < b.len() implies #[trigger] group_ok(b, offset, i) by {
        assert(group_ok(a, offset, i));
        assert(b[i] == (GroupModel { node_indices: b[i].node_indices, ..a[i] }));
        if let Some(p) = a[i].parent {
            assert(b[p as int] == (GroupModel {
                node_indices: b[p as int].node_indices,
                ..a[p as int]
            }));
        }
    }
    assert forall|i: int| 0 <= i < b.len() implies #[trigger] children_ok(b, i) by {
        assert(children_ok(a, i));
        assert(b[i].children == a[i].children);
        let children = b[i].children;
        assert forall|k: int| 0 <= k < children.len() implies (#[trigger] children[k]) < b.len()
            && lies_in(b, children[k] as int, i) by {
            assert(lies_in(a, a[i].children[k] as int, i));
            assert(b[children[k] as int].parent == a[children[k] as int].parent);
        }
        assert forall|c: int|
            0 <= c < b.len() && #[trigger] lies_in(b, c, i) implies children.contains(
            c as usize,
        ) by {
            assert(b[c].parent == a[c].parent);
            assert(lies_in(a, c, i));
        }
    }
    assert forall|i: int, j: int| 0 <= i < j < b.len() implies !(time_of(#[trigger] b[i])
        == time_of(#[trigger] b[j]) && path_of(b[i]) == path_of(b[j])) by {
        assert(b[i].pdg_node == a[i].pdg_node);
        assert(b[j].pdg_node == a[j].pdg_node);
    }
}

/// The list of groups after a group has been added below another.
pub open spec fn with_child(
    groups: Seq<GroupModel>,
    parent: int,
    name: Seq<char>,
    offset: int,
) -> Seq<GroupModel> {
    groups.update(
        parent,
        GroupModel {
            children: groups[parent].children.push(groups.len() as usize),
            ..groups[parent]
        },
    ).push(
        GroupModel {
            instance_name: name,
            expanded: false,
            pdg_node: hier_node(
                "module_"@ + name,
                time_of(groups[parent]),
                path_of(groups[parent]).push(name),
            ),
            node_indices: Seq::empty(),
            children: Seq::empty(),
            parent: Some(parent as usize),
            group_id: (offset + groups.len()) as usize,
        },
    )
}

/// Where no child of a group has a name, no group stands for the path that the name leads to.
pub proof fn missing_child_missing_path(
    groups: Seq<GroupModel>,
    offset: int,
    parent: int,
    name: Seq<char>,
)
    requires
        trees_ok(groups, offset),
        0 <= parent < groups.len(),
        forall|c: int|
            0 <= c < groups.len() && #[trigger] lies_in(groups, c, parent)
                ==> groups[c].instance_name != name,
    ensures
        !has_group(groups, time_of(groups[parent]) as int, path_of(groups[parent]).push(name)),
{
    let wanted = path_of(groups[parent]).push(name);
    let time = time_of(groups[parent]) as int;
    if has_group(groups, time, wanted) {
        let j = choose|j: int| 0 <= j < groups.len() && stands_for(#[trigger] groups[j], time, wanted);
        assert(group_ok(groups, offset, j));
        match groups[j].parent {
            None => {
                assert(path_of(groups[j]).len() == 0);
            },
            Some(p) => {
                assert(wanted.last() == name);
                assert(path_of(groups[j]).last() == groups[j].instance_name);
                assert(wanted.drop_last() =~= path_of(groups[parent]));
                assert(path_of(groups[j]).drop_last() =~= path_of(groups[p as int]));
                if p != parent {
                    if p < parent {
                        assert(!(time_of(groups[p as int]) == time_of(groups[parent]) && path_of(
                            groups[p as int],
                        ) == path_of(groups[parent])));
                    } else {
                        assert(!(time_of(groups[parent]) == time_of(groups[p as int]) && path_of(
                            groups[parent],
                        ) == path_of(groups[p as int])));
                    }
                }
                assert(lies_in(groups, j, parent));
            },
        }
    }
}

/// Adding a group where none of its name is keeps the trees in order.
proof fn trees_with_child_ok(groups: Seq<GroupModel>, parent: int, name: Seq<char>, offset: int)
    requires
        trees_ok(groups, offset),
        0 <= offset,
        0 <= parent < groups.len(),
        offset + groups.len() < usize::MAX,
        forall|c: int|
            0 <= c < groups.len() && #[trigger] lies_in(groups, c, parent)
                ==> groups[c].instance_name != name,
    ensures
        trees_ok(with_child(groups, parent, name, offset), offset),
{
    let grown = with_child(groups, parent, name, offset);
    let n = groups.len() as int;
    missing_child_missing_path(groups, offset, parent, name);
    assert(grown[n].pdg_node == hier_node(
        "module_"@ + name,
        time_of(groups[parent]),
        path_of(groups[parent]).push(name),
    ));
    assert forall|i: int| 0 <= i < grown.len() implies #[trigger] group_ok(grown, offset, i) by {
        if i < n {
            assert(group_ok(groups, offset, i));
            assert(grown[i].pdg_node == groups[i].pdg_node);
            if let Some(p) = groups[i].parent {
                assert(grown[p as int].pdg_node == groups[p as int].pdg_node);
            }
        } else {
            assert(grown[parent].pdg_node == groups[parent].pdg_node);
        }
    }
    assert forall|i: int| 0 <= i < grown.len() implies #[trigger] children_ok(grown, i) by {
        let children = grown[i].children;
        if i < n {
            assert(children_ok(groups, i));
            let before = groups[i].children;
            assert forall|k: int| 0 <= k < before.len() implies (#[trigger] before[k]) < n
                && lies_in(grown, before[k] as int, i) by {
                assert(lies_in(groups, before[k] as int, i));
                assert(grown[before[k] as int].parent == groups[before[k] as int].parent);
            }
            assert forall|k: int| 0 <= k < children.len() implies (#[trigger] children[k])
                < grown.len() && lies_in(grown, children[k] as int, i) by {
                if k < before.len() {
                    assert(children[k] == before[k]);
                }
            }
            assert forall|j: int, k: int| 0 <= j < k < children.len() implies (
            #[trigger] children[j]) < (#[trigger] children[k]) by {
                assert(children[j] == before[j]);
                if k < before.len() {
                    assert(children[k] == before[k]);
                }
            }
            assert forall|c: int|
                0 <= c < grown.len() && #[trigger] lies_in(grown, c, i) implies children.contains(
                c as usize,
            ) by {
                if c < n {
                    assert(grown[c].parent == groups[c].parent);
                    assert(lies_in(groups, c, i));
                    let k = choose|k: int| 0 <= k < before.len() && before[k] == c as usize;
                    assert(children[k] == before[k]);
                } else {
                    assert(children[before.len() as int] == c as usize);
                }
            }
        } else {
            assert forall|c: int|
                0 <= c < grown.len() && #[trigger] lies_in(grown, c, i) implies children.contains(
                c as usize,
            ) by {
                if c < n {
                    assert(group_ok(groups, offset, c));
                    assert(grown[c].parent == groups[c].parent);
                }
            }
        }
    }
    assert forall|i: int, j: int| 0 <= i < j < grown.len() implies !(time_of(#[trigger] grown[i])
        == time_of(#[trigger] grown[j]) && path_of(grown[i]) == path_of(grown[j])) by {
        assert(grown[i].pdg_node == groups[i].pdg_node);
        if j < n {
            assert(grown[j].pdg_node == groups[j].pdg_node);
        } else {
            assert(!stands_for(
                groups[i],
                time_of(groups[parent]) as int,
                path_of(groups[parent]).push(name),
            ));
        }
    }
}

/// The groups that a group lies in stand for the beginnings of its path.
pub proof fn beginnings_have_groups(groups: Seq<GroupModel>, offset: int, i: int, k: int)
    requires
        trees_ok(groups, offset),
        0 <= i < groups.len(),
        0 <= k <= path_of(groups[i]).len(),
    ensures
        has_group(groups, time_of(groups[i]) as int, path_of(groups[i]).take(k)),
    decreases i,
{
    let path = path_of(groups[i]);
    assert(group_ok(groups, offset, i));
    if k == path.len() {
        assert(path.take(k) =~= path);
        assert(stands_for(groups[i], time_of(groups[i]) as int, path.take(k)));
    } else {
        match groups[i].parent {
            Some(p) => {
                beginnings_have_groups(groups, offset, p as int, k);
                assert(path_of(groups[p as int]).take(k) =~= path.take(k));
            },
            None => {},
        }
    }
}

/// Finds the group of a name directly in another group.
pub(crate) fn find_child(
    groups: &Vec<GraphNodeHierarchy>,
    parent: usize,
    name: &String,
    Ghost(offset): Ghost<int>,
) -> (r: Option<usize>)
    requires
        trees_ok(group_models(groups@), offset),
        parent < groups.len(),
    ensures
        match r {
            Some(c) => {
                &&& c < groups.len()
                &&& lies_in(group_models(groups@), c as int, parent as int)
                &&& groups@[c as int].instance_name@ == name@
                &&& stands_for(
                    groups@[c as int]@,
                    time_of(groups@[parent as int]@) as int,
                    path_of(groups@[parent as int]@).push(name@),
                )
            },
            None => forall|c: int|
                0 <= c < groups.len() && #[trigger] lies_in(
                    group_models(groups@),
                    c,
                    parent as int,
                ) ==> groups@[c].instance_name@ != name@,
        },
{
    let ghost models = group_models(groups@);
    let children: &Vec<usize> = &groups[parent].children;
    assert(children_ok(models, parent as int));
    let mut k: usize = 0;
    while k < children.len()
        invariant
            k <= children.len(),
            models == group_models(groups@),
            parent < groups.len(),
            trees_ok(models, offset),
            children@ == models[parent as int].children,
            children_ok(models, parent as int),
            forall|j: int|
                0 <= j < k ==> groups@[(#[trigger] children@[j]) as int].instance_name@ != name@,
        decreases children.len() - k,
    {
        let child: usize = children[k];
        assert(models[parent as int].children[k as int] < models.len());
        if groups[child].instance_name == *name {
            assert(group_ok(models, offset, child as int));
            assert(models[child as int] == groups@[child as int]@);
            assert(models[parent as int] == groups@[parent as int]@);
            return Some(child);
        }
        k = k + 1;
    }
    assert forall|c: int|
        0 <= c < groups.len() && #[trigger] lies_in(models, c, parent as int) implies groups@[c].instance_name@
        != name@ by {
        assert(children@.contains(c as usize));
        let j = choose|j: int| 0 <= j < children@.len() && children@[j] == c as usize;
        assert(groups@[children@[j] as int].instance_name@ != name@);
    }
    None
}

/// Adds a group directly in another group.
pub(crate) fn add_child(
    groups: &mut Vec<GraphNodeHierarchy>,
    parent: usize,
    name: &String,
    offset: usize,
) -> (r: usize)
    requires
        trees_ok(group_models(old(groups)@), offset as int),
        parent < old(groups).len(),
        offset + old(groups).len() < usize::MAX,
        forall|c: int|
            0 <= c < old(groups).len() && #[trigger] lies_in(
                group_models(old(groups)@),
                c,
                parent as int,
            ) ==> old(groups)@[c].instance_name@ != name@,
    ensures
        group_models(final(groups)@) == with_child(
            group_models(old(groups)@),
            parent as int,
            name@,
            offset as int,
        ),
        trees_ok(group_models(final(groups)@), offset as int),
        r == old(groups).len(),
{
    let ghost before = group_models(groups@);
    proof {
        assert(before[parent as int] == groups@[parent as int]@);
        assert forall|c: int|
            0 <= c < before.len() && #[trigger] lies_in(before, c, parent as int) implies before[c].instance_name
            != name@ by {
            assert(groups@[c].instance_name@ != name@);
        }
        trees_with_child_ok(before, parent as int, name@, offset as int);
    }
    let place: usize = groups.len();
    let timestamp: i64 = groups[parent].pdg_node.timestamp;
    let mut path: Vec<String> = copy_texts(&groups[parent].pdg_node.instance_path);
    let ghost outer = texts(path@);
    path.push(name.clone());
    assert(texts(path@) =~= outer.push(name@));
    let mut title: String = "module_".to_string();
    title.append(name.as_str());
    let group = GraphNodeHierarchy {
        instance_name: name.clone(),
        expanded: false,
        pdg_node: create_hier_pdg_node(title, timestamp, path),
        node_indices: Vec::new(),
        children: Vec::new(),
        parent: Some(parent),
        group_id: offset + place,
    };
    groups[parent].children.push(place);
    groups.push(group);
    proof {
        let wanted = with_child(before, parent as int, name@, offset as int);
        let now = group_models(groups@);
        assert(now.len() == wanted.len());
        assert(group@ =~= wanted[place as int]);
        assert forall|i: int| 0 <= i < now.len() implies now[i] == wanted[i] by {
            if i < place && i != parent {
                assert(now[i] == before[i]);
            }
        }
        assert(now =~= wanted);
    }
    place
}

/// Whether a list of groups results from another by adding groups at its end.
pub open spec fn grows_to(before: Seq<GroupModel>, after: Seq<GroupModel>) -> bool {
    &&& before.len() <= after.len()
    &&& forall|i: int|
        0 <= i < before.len() ==> (#[trigger] after[i]) == (GroupModel {
            children: after[i].children,
            ..before[i]
        })
}

/// Whether the groups from a place on stand for beginnings of a path, with nothing in them.
pub open spec fn added_for(
    groups: Seq<GroupModel>,
    from: int,
    time: int,
    path: Seq<Seq<char>>,
) -> bool {
    forall|i: int|
        from <= i < groups.len() ==> {
            &&& time_of(#[trigger] groups[i]) == time
            &&& path_of(groups[i]).len() > 0
            &&& path_begins(path_of(groups[i]), path)
            &&& groups[i].node_indices == Seq::<usize>::empty()
        }
}

/// Adds the groups that are missing on the way from an outermost group down a path, and returns
/// the group that stands for the path.
pub(crate) fn ensure_path(
    groups: &mut Vec<GraphNodeHierarchy>,
    root: usize,
    path: &Vec<String>,
    offset: usize,
) -> (r: usize)
    requires
        trees_ok(group_models(old(groups)@), offset as int),
        root < old(groups).len(),
        path_of(old(groups)@[root as int]@).len() == 0,
        offset + old(groups).len() + path.len() <= usize::MAX,
    ensures
        trees_ok(group_models(final(groups)@), offset as int),
        grows_to(group_models(old(groups)@), group_models(final(groups)@)),
        added_for(
            group_models(final(groups)@),
            old(groups).len() as int,
            time_of(old(groups)@[root as int]@) as int,
            texts(path@),
        ),
        final(groups).len() <= old(groups).len() + path.len(),
        r < final(groups).len(),
        stands_for(
            final(groups)@[r as int]@,
            time_of(old(groups)@[root as int]@) as int,
            texts(path@),
        ),
{
    let ghost before = group_models(groups@);
    let ghost time = time_of(groups@[root as int]@) as int;
    let ghost wanted = texts(path@);
    let mut current: usize = root;
    let mut k: usize = 0;
    assert(wanted.take(0) =~= path_of(groups@[root as int]@));
    while k < path.len()
        invariant
            k <= path.len(),
            before == group_models(old(groups)@),
            wanted == texts(path@),
            trees_ok(group_models(groups@), offset as int),
            grows_to(before, group_models(groups@)),
            added_for(group_models(groups@), before.len() as int, time, wanted),
            groups.len() <= before.len() + k,
            offset + before.len() + path.len() <= usize::MAX,
            current < groups.len(),
            stands_for(group_models(groups@)[current as int], time, wanted.take(k as int)),
        decreases path.len() - k,
    {
        let ghost here = group_models(groups@);
        let found: Option<usize> = find_child(groups, current, &path[k], Ghost(offset as int));
        assert(wanted.take(k as int).push(wanted[k as int]) =~= wanted.take(k + 1));
        match found {
            Some(child) => {
                current = child;
            },
            None => {
                let place: usize = add_child(groups, current, &path[k], offset);
                proof {
                    let now = group_models(groups@);
                    let added = now[place as int];
                    assert(path_of(added) == wanted.take(k + 1));
                    assert(path_of(added).len() == k + 1);
                    assert(path_begins(path_of(added), wanted));
                    assert forall|i: int| 0 <= i < before.len() implies (#[trigger] now[i]) == (
                    GroupModel { children: now[i].children, ..before[i] }) by {
                        assert(here[i] == (GroupModel { children: here[i].children, ..before[i] }));
                    }
                    assert forall|i: int| before.len() <= i < now.len() implies {
                        &&& time_of(#[trigger] now[i]) == time
                        &&& path_of(now[i]).len() > 0
                        &&& path_begins(path_of(now[i]), wanted)
                        &&& now[i].node_indices == Seq::<usize>::empty()
                    } by {
                        if i < here.len() {
                            assert(now[i].pdg_node == here[i].pdg_node);
                            assert(now[i].node_indices == here[i].node_indices);
                            assert(time_of(here[i]) == time);
                        }
                    }
                }
                current = place;
            },
        }
        k = k + 1;
    }
    assert(wanted.take(k as int) =~= wanted);
    assert(group_models(groups@)[current as int] == groups@[current as int]@);
    current
}

/// A path without its empty parts.
pub open spec fn without_empty(path: Seq<Seq<char>>) -> Seq<Seq<char>>
    decreases path.len(),
{
    if path.len() == 0 {
        path
    } else if path.last().len() == 0 {
        without_empty(path.drop_last())
    } else {
        without_empty(path.drop_last()).push(path.last())
    }
}

/// Dropping the empty parts of the beginning of a path gives a beginning of what dropping them
/// from the path gives.
proof fn without_empty_begins(path: Seq<Seq<char>>, k: int)
    requires
        0 <= k <= path.len(),
    ensures
        path_begins(without_empty(path.take(k)), without_empty(path)),
    decreases path.len(),
{
    if k == path.len() {
        assert(path.take(k) =~= path);
        assert(without_empty(path) =~= without_empty(path).take(without_empty(path).len() as int));
    } else {
        let rest = path.drop_last();
        without_empty_begins(rest, k);
        assert(rest.take(k) =~= path.take(k));
        let short = without_empty(path.take(k));
        assert(without_empty(rest).take(short.len() as int) =~= without_empty(path).take(
            short.len() as int,
        ));
    }
}

/// Two groups that stand for the same path at the same time are the same group.
pub proof fn groups_are_distinct(
    groups: Seq<GroupModel>,
    offset: int,
    i: int,
    j: int,
)
    requires
        trees_ok(groups, offset),
        0 <= i < groups.len(),
        0 <= j < groups.len(),
        time_of(groups[i]) == time_of(groups[j]),
        path_of(groups[i]) == path_of(groups[j]),
    ensures
        i == j,
{
    if i < j {
        assert(!(time_of(groups[i]) == time_of(groups[j]) && path_of(groups[i]) == path_of(
            groups[j],
        )));
    } else if j < i {
        assert(!(time_of(groups[j]) == time_of(groups[i]) && path_of(groups[j]) == path_of(
            groups[i],
        )));
    }
}

/// Walks down from an outermost group by the parts of a path that are not empty.
pub(crate) fn descend_path(
    groups: &Vec<GraphNodeHierarchy>,
    root: usize,
    path: &Vec<String>,
    Ghost(offset): Ghost<int>,
) -> (r: usize)
    requires
        trees_ok(group_models(groups@), offset),
        root < groups.len(),
        path_of(groups@[root as int]@).len() == 0,
        has_group(
            group_models(groups@),
            time_of(groups@[root as int]@) as int,
            without_empty(texts(path@)),
        ),
    ensures
        r < groups.len(),
        stands_for(
            groups@[r as int]@,
            time_of(groups@[root as int]@) as int,
            without_empty(texts(path@)),
        ),
{
    let ghost models = group_models(groups@);
    let ghost time = time_of(groups@[root as int]@) as int;
    let ghost whole = texts(path@);
    let mut current: usize = root;
    let mut k: usize = 0;
    assert(without_empty(whole.take(0)) =~= path_of(groups@[root as int]@));
    while k < path.len()
        invariant
            k <= path.len(),
            models == group_models(groups@),
            whole == texts(path@),
            trees_ok(models, offset),
            has_group(models, time, without_empty(whole)),
            current < groups.len(),
            stands_for(models[current as int], time, without_empty(whole.take(k as int))),
        decreases path.len() - k,
    {
        let part: &String = &path[k];
        let ghost here = whole.take(k as int);
        let ghost next = whole.take(k + 1);
        assert(next.drop_last() =~= here);
        assert(next.last() == part@);
        if part.as_str().unicode_len() != 0 {
            let found: Option<usize> = find_child(groups, current, part, Ghost(offset));
            proof {
                without_empty_begins(whole, k + 1);
                let i = choose|i: int|
                    0 <= i < models.len() && stands_for(
                        #[trigger] models[i],
                        time,
                        without_empty(whole),
                    );
                beginnings_have_groups(models, offset, i, without_empty(next).len() as int);
                let j = choose|j: int|
                    0 <= j < models.len() && stands_for(
                        #[trigger] models[j],
                        time,
                        without_empty(next),
                    );
                assert(path_of(models[j]) == path_of(models[current as int]).push(part@));
                if found is None {
                    assert forall|c: int|
                        0 <= c < models.len() && #[trigger] lies_in(
                            models,
                            c,
                            current as int,
                        ) implies models[c].instance_name != part@ by {
                        assert(groups@[c].instance_name@ != part@);
                    }
                    missing_child_missing_path(models, offset, current as int, part@);
                }
            }
            match found {
                Some(child) => {
                    current = child;
                },
                None => {
                    assert(false);
                },
            }
        }
        k = k + 1;
    }
    assert(whole.take(k as int) =~= whole);
    assert(models[current as int] == groups@[current as int]@);
    current
}

/// The list of groups after the outermost group of a point in time has been added.
pub open spec fn with_root(groups: Seq<GroupModel>, time: i64, offset: int) -> Seq<GroupModel> {
    groups.push(
        GroupModel {
            instance_name: "top"@,
            expanded: true,
            pdg_node: hier_node("module_top"@, time, Seq::empty()),
            node_indices: Seq::empty(),
            children: Seq::empty(),
            parent: None,
            group_id: (offset + groups.len()) as usize,
        },
    )
}

/// Adding the outermost group of a point in time keeps the trees in order.
proof fn trees_with_root_ok(groups: Seq<GroupModel>, time: i64, offset: int)
    requires
        trees_ok(groups, offset),
        0 <= offset,
        offset + groups.len() < usize::MAX,
        forall|i: int| 0 <= i < groups.len() ==> time_of(#[trigger] groups[i]) != time,
    ensures
        trees_ok(with_root(groups, time, offset), offset),
{
    let grown = with_root(groups, time, offset);
    let n = groups.len() as int;
    assert forall|i: int| 0 <= i < grown.len() implies #[trigger] group_ok(grown, offset, i) by {
        if i < n {
            assert(group_ok(groups, offset, i));
            assert(grown[i] == groups[i]);
            if let Some(p) = groups[i].parent {
                assert(grown[p as int] == groups[p as int]);
            }
        }
    }
    assert forall|i: int| 0 <= i < grown.len() implies #[trigger] children_ok(grown, i) by {
        let children = grown[i].children;
        if i < n {
            assert(children_ok(groups, i));
            assert(children == groups[i].children);
            assert forall|k: int| 0 <= k < children.len() implies (#[trigger] children[k])
                < grown.len() && lies_in(grown, children[k] as int, i) by {
                assert(lies_in(groups, groups[i].children[k] as int, i));
            }
            assert forall|c: int|
                0 <= c < grown.len() && #[trigger] lies_in(grown, c, i) implies children.contains(
                c as usize,
            ) by {
                assert(lies_in(groups, c, i));
            }
        } else {
            assert forall|c: int|
                0 <= c < grown.len() && #[trigger] lies_in(grown, c, i) implies children.contains(
                c as usize,
            ) by {
                if c < n {
                    assert(group_ok(groups, offset, c));
                }
            }
        }
    }
    assert forall|i: int, j: int| 0 <= i < j < grown.len() implies !(time_of(#[trigger] grown[i])
        == time_of(#[trigger] grown[j]) && path_of(grown[i]) == path_of(grown[j])) by {
        assert(grown[i] == groups[i]);
        if j < n {
            assert(grown[j] == groups[j]);
        }
    }
}

/// Adds the outermost group of a point in time.
pub(crate) fn add_root(groups: &mut Vec<GraphNodeHierarchy>, time: i64, offset: usize)
    requires
        trees_ok(group_models(old(groups)@), offset as int),
        offset + old(groups).len() < usize::MAX,
        forall|i: int|
            0 <= i < old(groups).len() ==> time_of(#[trigger] group_models(old(groups)@)[i])
                != time,
    ensures
        group_models(final(groups)@) == with_root(
            group_models(old(groups)@),
            time,
            offset as int,
        ),
        trees_ok(group_models(final(groups)@), offset as int),
{
    let ghost before = group_models(groups@);
    proof {
        trees_with_root_ok(before, time, offset as int);
    }
    let path: Vec<String> = Vec::new();
    assert(texts(path@) =~= Seq::empty());
    let top = GraphNodeHierarchy {
        instance_name: "top".to_string(),
        expanded: true,
        pdg_node: create_hier_pdg_node("module_top".to_string(), time, path),
        node_indices: Vec::new(),
        children: Vec::new(),
        parent: None,
        group_id: offset + groups.len(),
    };
    groups.push(top);
    proof {
        let now = group_models(groups@);
        let wanted = with_root(before, time, offset as int);
        assert(top@ =~= wanted.last());
        assert forall|i: int| 0 <= i < now.len() implies now[i] == wanted[i] by {
            if i < before.len() {
                assert(now[i] == before[i]);
            }
        }
        assert(now =~= wanted);
    }
}

} // verus!
