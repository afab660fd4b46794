//! One tree shape for every structured format: scalar strings, sequences
//! and keyed entries are modelled; any other scalar is carried through
//! opaquely so that rewriting preserves it.

use vstd::prelude::*;

verus! {

#[verifier::external_type_specification]
#[verifier::external_body]
pub struct ExJsonValue(serde_json::Value);

#[verifier::external_type_specification]
#[verifier::external_body]
pub struct ExYamlValue(serde_yaml_ng::Value);

#[verifier::external_type_specification]
#[verifier::external_body]
pub struct ExTomlValue(toml::Value);

/// A parsed structured document, reduced to what the engine reads and
/// rewrites: strings, sequences, keyed entries, and opaque leaves that are
/// preserved as the format's own value.
pub enum Node {
    Str(String),
    List(Vec<Node>),
    Entries(Vec<(Node, Node)>),
    RawJson(serde_json::Value),
    RawYaml(serde_yaml_ng::Value),
    RawToml(toml::Value),
}

/// The mathematical shape of a `Node`: opaque leaves collapse to `Raw`.
pub enum NodeView {
    Str(Seq<char>),
    List(Seq<NodeView>),
    Entries(Seq<(NodeView, NodeView)>),
    Raw,
}

/// The view of a node.
pub open spec fn node_view(n: Node) -> NodeView
    decreases n,
{
    match n {
        Node::Str(s) => NodeView::Str(s@),
        Node::List(items) => NodeView::List(views_of_list(items@)),
        Node::Entries(kvs) => NodeView::Entries(views_of_entries(kvs@)),
        Node::RawJson(_) => NodeView::Raw,
        Node::RawYaml(_) => NodeView::Raw,
        Node::RawToml(_) => NodeView::Raw,
    }
}

/// The views of a sequence of nodes.
pub open spec fn views_of_list(items: Seq<Node>) -> Seq<NodeView>
    decreases items,
{
    if items.len() == 0 {
        Seq::empty()
    } else {
        seq![node_view(items[0])] + views_of_list(items.drop_first())
    }
}

/// The views of a sequence of keyed entries.
pub open spec fn views_of_entries(kvs: Seq<(Node, Node)>) -> Seq<(NodeView, NodeView)>
    decreases kvs,
{
    if kvs.len() == 0 {
        Seq::empty()
    } else {
        seq![(node_view(kvs[0].0), node_view(kvs[0].1))] + views_of_entries(kvs.drop_first())
    }
}

pub proof fn lemma_views_of_list(items: Seq<Node>)
    ensures
        views_of_list(items).len() == items.len(),
        forall|i: int|
            0 <= i < items.len() ==> views_of_list(items)[i] == node_view(items[i]),
    decreases items.len(),
{
    if items.len() > 0 {
        lemma_views_of_list(items.drop_first());
    }
}

pub proof fn lemma_views_of_entries(kvs: Seq<(Node, Node)>)
    ensures
        views_of_entries(kvs).len() == kvs.len(),
        forall|i: int|
            0 <= i < kvs.len() ==> views_of_entries(kvs)[i] == (
            node_view(kvs[i].0),
            node_view(kvs[i].1),
            ),
    decreases kvs.len(),
{
    if kvs.len() > 0 {
        lemma_views_of_entries(kvs.drop_first());
    }
}

/// Every scalar string of the tree, in visiting order; entry keys are not
/// visited, only their values.
pub open spec fn strings_of(t: NodeView) -> Seq<Seq<char>>
    decreases t,
{
    match t {
        NodeView::Str(s) => seq![s],
        NodeView::List(items) => strings_of_list(items),
        NodeView::Entries(kvs) => strings_of_entries(kvs),
        NodeView::Raw => Seq::empty(),
    }
}

/// The scalar strings of a sequence of trees, in order.
pub open spec fn strings_of_list(items: Seq<NodeView>) -> Seq<Seq<char>>
    decreases items,
{
    if items.len() == 0 {
        Seq::empty()
    } else {
        strings_of(items[0]) + strings_of_list(items.drop_first())
    }
}

/// The scalar strings of the values of keyed entries, in order.
pub open spec fn strings_of_entries(kvs: Seq<(NodeView, NodeView)>) -> Seq<Seq<char>>
    decreases kvs,
{
    if kvs.len() == 0 {
        Seq::empty()
    } else {
        strings_of(kvs[0].1) + strings_of_entries(kvs.drop_first())
    }
}

/// The tree with every scalar string equal to `old` replaced by `new`;
/// entry keys are left as they are.
pub open spec fn replace_tree(t: NodeView, old: Seq<char>, new: Seq<char>) -> NodeView
    decreases t,
{
    match t {
        NodeView::Str(s) => if s == old {
            NodeView::Str(new)
        } else {
            NodeView::Str(s)
        },
        NodeView::List(items) => NodeView::List(replace_list(items, old, new)),
        NodeView::Entries(kvs) => NodeView::Entries(replace_entries(kvs, old, new)),
        NodeView::Raw => NodeView::Raw,
    }
}

/// Replacement applied to each tree of a sequence.
pub open spec fn replace_list(items: Seq<NodeView>, old: Seq<char>, new: Seq<char>) -> Seq<
    NodeView,
>
    decreases items,
{
    if items.len() == 0 {
        Seq::empty()
    } else {
        seq![replace_tree(items[0], old, new)] + replace_list(items.drop_first(), old, new)
    }
}

/// Replacement applied to the value of each keyed entry.
pub open spec fn replace_entries(
    kvs: Seq<(NodeView, NodeView)>,
    old: Seq<char>,
    new: Seq<char>,
) -> Seq<(NodeView, NodeView)>
    decreases kvs,
{
    if kvs.len() == 0 {
        Seq::empty()
    } else {
        seq![(kvs[0].0, replace_tree(kvs[0].1, old, new))] + replace_entries(
            kvs.drop_first(),
            old,
            new,
        )
    }
}

pub proof fn lemma_replace_list_char(items: Seq<NodeView>, old: Seq<char>, new: Seq<char>)
    ensures
        replace_list(items, old, new).len() == items.len(),
        forall|i: int|
            0 <= i < items.len() ==> replace_list(items, old, new)[i] == replace_tree(
                items[i],
                old,
                new,
            ),
    decreases items.len(),
{
    if items.len() > 0 {
        lemma_replace_list_char(items.drop_first(), old, new);
    }
}

pub proof fn lemma_replace_entries_char(kvs: Seq<(NodeView, NodeView)>, old: Seq<char>, new: Seq<char>)
    ensures
        replace_entries(kvs, old, new).len() == kvs.len(),
        forall|i: int|
            0 <= i < kvs.len() ==> replace_entries(kvs, old, new)[i] == (
            kvs[i].0,
            replace_tree(kvs[i].1, old, new),
            ),
    decreases kvs.len(),
{
    if kvs.len() > 0 {
        lemma_replace_entries_char(kvs.drop_first(), old, new);
    }
}

pub proof fn lemma_strings_of_list_concat(a: Seq<NodeView>, b: Seq<NodeView>)
    ensures
        strings_of_list(a + b) == strings_of_list(a) + strings_of_list(b),
    decreases a.len(),
{
    if a.len() == 0 {
        assert(a + b =~= b);
        assert(strings_of_list(a) + strings_of_list(b) =~= strings_of_list(b));
    } else {
        lemma_strings_of_list_concat(a.drop_first(), b);
        assert((a + b).drop_first() =~= a.drop_first() + b);
        assert((a + b)[0] == a[0]);
        assert(strings_of(a[0]) + (strings_of_list(a.drop_first()) + strings_of_list(b))
            =~= (strings_of(a[0]) + strings_of_list(a.drop_first())) + strings_of_list(b));
    }
}

pub proof fn lemma_strings_of_entries_concat(a: Seq<(NodeView, NodeView)>, b: Seq<(NodeView, NodeView)>)
    ensures
        strings_of_entries(a + b) == strings_of_entries(a) + strings_of_entries(b),
    decreases a.len(),
{
    if a.len() == 0 {
        assert(a + b =~= b);
        assert(strings_of_entries(a) + strings_of_entries(b) =~= strings_of_entries(b));
    } else {
        lemma_strings_of_entries_concat(a.drop_first(), b);
        assert((a + b).drop_first() =~= a.drop_first() + b);
        assert((a + b)[0] == a[0]);
        assert(strings_of(a[0].1) + (strings_of_entries(a.drop_first()) + strings_of_entries(b))
            =~= (strings_of(a[0].1) + strings_of_entries(a.drop_first())) + strings_of_entries(
            b,
        ));
    }
}

/// Replacing a string by itself leaves every tree unchanged.
pub proof fn lemma_replace_tree_same(t: NodeView, p: Seq<char>)
    ensures
        replace_tree(t, p, p) == t,
    decreases t,
{
    match t {
        NodeView::Str(s) => {},
        NodeView::List(items) => {
            lemma_replace_list_same(items, p);
        },
        NodeView::Entries(kvs) => {
            lemma_replace_entries_same(kvs, p);
        },
        NodeView::Raw => {},
    }
}

proof fn lemma_replace_list_same(items: Seq<NodeView>, p: Seq<char>)
    ensures
        replace_list(items, p, p) == items,
    decreases items,
{
    if items.len() == 0 {
        assert(replace_list(items, p, p) =~= items);
    } else {
        lemma_replace_tree_same(items[0], p);
        lemma_replace_list_same(items.drop_first(), p);
        assert(replace_list(items, p, p) =~= items);
    }
}

proof fn lemma_replace_entries_same(kvs: Seq<(NodeView, NodeView)>, p: Seq<char>)
    ensures
        replace_entries(kvs, p, p) == kvs,
    decreases kvs,
{
    if kvs.len() == 0 {
        assert(replace_entries(kvs, p, p) =~= kvs);
    } else {
        lemma_replace_tree_same(kvs[0].1, p);
        lemma_replace_entries_same(kvs.drop_first(), p);
        assert((kvs[0].0, replace_tree(kvs[0].1, p, p)) == kvs[0]);
        assert(replace_entries(kvs, p, p) =~= kvs);
    }
}

/// A rewrite whose old value occurs nowhere among the scalar strings
/// leaves the tree unchanged; in particular, repeating a finished rewrite
/// changes nothing more.
pub proof fn lemma_replace_tree_absent(t: NodeView, old: Seq<char>, new: Seq<char>)
    requires
        !strings_of(t).contains(old),
    ensures
        replace_tree(t, old, new) == t,
    decreases t,
{
    match t {
        NodeView::Str(s) => {
            assert(strings_of(t)[0] == s);
        },
        NodeView::List(items) => {
            lemma_replace_list_absent(items, old, new);
        },
        NodeView::Entries(kvs) => {
            lemma_replace_entries_absent(kvs, old, new);
        },
        NodeView::Raw => {},
    }
}

proof fn lemma_replace_list_absent(items: Seq<NodeView>, old: Seq<char>, new: Seq<char>)
    requires
        !strings_of_list(items).contains(old),
    ensures
        replace_list(items, old, new) == items,
    decreases items,
{
    if items.len() == 0 {
        assert(replace_list(items, old, new) =~= items);
    } else {
        let head = strings_of(items[0]);
        let rest = strings_of_list(items.drop_first());
        assert(!head.contains(old)) by {
            if head.contains(old) {
                let i = choose|i: int| 0 <= i < head.len() && head[i] == old;
                assert((head + rest)[i] == old);
            }
        }
        assert(!rest.contains(old)) by {
            if rest.contains(old) {
                let i = choose|i: int| 0 <= i < rest.len() && rest[i] == old;
                assert((head + rest)[head.len() + i] == old);
            }
        }
        lemma_replace_tree_absent(items[0], old, new);
        lemma_replace_list_absent(items.drop_first(), old, new);
        assert(replace_list(items, old, new) =~= items);
    }
}

proof fn lemma_replace_entries_absent(
    kvs: Seq<(NodeView, NodeView)>,
    old: Seq<char>,
    new: Seq<char>,
)
    requires
        !strings_of_entries(kvs).contains(old),
    ensures
        replace_entries(kvs, old, new) == kvs,
    decreases kvs,
{
    if kvs.len() == 0 {
        assert(replace_entries(kvs, old, new) =~= kvs);
    } else {
        let head = strings_of(kvs[0].1);
        let rest = strings_of_entries(kvs.drop_first());
        assert(!head.contains(old)) by {
            if head.contains(old) {
                let i = choose|i: int| 0 <= i < head.len() && head[i] == old;
                assert((head + rest)[i] == old);
            }
        }
        assert(!rest.contains(old)) by {
            if rest.contains(old) {
                let i = choose|i: int| 0 <= i < rest.len() && rest[i] == old;
                assert((head + rest)[head.len() + i] == old);
            }
        }
        lemma_replace_tree_absent(kvs[0].1, old, new);
        lemma_replace_entries_absent(kvs.drop_first(), old, new);
        assert((kvs[0].0, replace_tree(kvs[0].1, old, new)) == kvs[0]);
        assert(replace_entries(kvs, old, new) =~= kvs);
    }
}

/// What a string becomes under replacement.
pub open spec fn swap_string(s: Seq<char>, old: Seq<char>, new: Seq<char>) -> Seq<char> {
    if s == old {
        new
    } else {
        s
    }
}

/// The scalar strings of a rewritten tree are exactly the original scalar
/// strings, each swapped from `old` to `new` where it matched.
pub proof fn lemma_replace_tree_strings(t: NodeView, old: Seq<char>, new: Seq<char>)
    ensures
        strings_of(replace_tree(t, old, new)) == strings_of(t).map_values(
            |s: Seq<char>| swap_string(s, old, new),
        ),
    decreases t,
{
    let f = |s: Seq<char>| swap_string(s, old, new);
    match t {
        NodeView::Str(s) => {
            assert(strings_of(t).map_values(f) =~= seq![f(s)]);
        },
        NodeView::List(items) => {
            lemma_replace_list_strings(items, old, new);
        },
        NodeView::Entries(kvs) => {
            lemma_replace_entries_strings(kvs, old, new);
        },
        NodeView::Raw => {
            assert(strings_of(t).map_values(f) =~= Seq::<Seq<char>>::empty());
        },
    }
}

proof fn lemma_replace_list_strings(items: Seq<NodeView>, old: Seq<char>, new: Seq<char>)
    ensures
        strings_of_list(replace_list(items, old, new)) == strings_of_list(items).map_values(
            |s: Seq<char>| swap_string(s, old, new),
        ),
    decreases items,
{
    let f = |s: Seq<char>| swap_string(s, old, new);
    if items.len() == 0 {
        assert(strings_of_list(items).map_values(f) =~= Seq::<Seq<char>>::empty());
    } else {
        lemma_replace_tree_strings(items[0], old, new);
        lemma_replace_list_strings(items.drop_first(), old, new);
        let r = replace_list(items, old, new);
        assert(r[0] == replace_tree(items[0], old, new));
        assert(r.drop_first() =~= replace_list(items.drop_first(), old, new));
        assert(strings_of_list(r) == strings_of(r[0]) + strings_of_list(r.drop_first()));
        assert((strings_of(items[0]) + strings_of_list(items.drop_first())).map_values(f)
            =~= strings_of(items[0]).map_values(f) + strings_of_list(
            items.drop_first(),
        ).map_values(f));
    }
}

proof fn lemma_replace_entries_strings(kvs: Seq<(NodeView, NodeView)>, old: Seq<char>, new: Seq<char>)
    ensures
        strings_of_entries(replace_entries(kvs, old, new)) == strings_of_entries(
            kvs,
        ).map_values(|s: Seq<char>| swap_string(s, old, new)),
    decreases kvs,
{
    let f = |s: Seq<char>| swap_string(s, old, new);
    if kvs.len() == 0 {
        assert(strings_of_entries(kvs).map_values(f) =~= Seq::<Seq<char>>::empty());
    } else {
        lemma_replace_tree_strings(kvs[0].1, old, new);
        lemma_replace_entries_strings(kvs.drop_first(), old, new);
        let r = replace_entries(kvs, old, new);
        assert(r[0] == (kvs[0].0, replace_tree(kvs[0].1, old, new)));
        assert(r.drop_first() =~= replace_entries(kvs.drop_first(), old, new));
        assert(strings_of_entries(r) == strings_of(r[0].1) + strings_of_entries(r.drop_first()));
        assert((strings_of(kvs[0].1) + strings_of_entries(kvs.drop_first())).map_values(f)
            =~= strings_of(kvs[0].1).map_values(f) + strings_of_entries(
            kvs.drop_first(),
        ).map_values(f));
    }
}

/// A rewrite removes the old value from the tree's scalar strings: after
/// replacing `old` by a different `new`, no scalar string equals `old`
/// any more, and wherever `old` stood, `new` now stands.
pub proof fn lemma_rewrite_removes_old(t: NodeView, old: Seq<char>, new: Seq<char>)
    requires
        old != new,
    ensures
        !strings_of(replace_tree(t, old, new)).contains(old),
        strings_of(t).contains(old) ==> strings_of(replace_tree(t, old, new)).contains(new),
{
    lemma_replace_tree_strings(t, old, new);
    let f = |s: Seq<char>| swap_string(s, old, new);
    let before = strings_of(t);
    let after = strings_of(replace_tree(t, old, new));
    assert(after == before.map_values(f));
    assert forall|i: int| 0 <= i < after.len() implies after[i] != old by {
        assert(after[i] == f(before[i]));
    }
    if before.contains(old) {
        let i = choose|i: int| 0 <= i < before.len() && before[i] == old;
        assert(after[i] == f(before[i]));
        assert(after[i] == new);
    }
}

/// Relies on the Clone impl of serde_json::Value: a derived, memberwise
/// copy, so the clone equals the original.
pub assume_specification[ <serde_json::Value as Clone>::clone ](v: &serde_json::Value) -> (r:
    serde_json::Value)
    ensures
        r == *v,
;

/// Relies on the Clone impl of serde_yaml_ng::Value: a derived, memberwise
/// copy, so the clone equals the original.
pub assume_specification[ <serde_yaml_ng::Value as Clone>::clone ](v: &serde_yaml_ng::Value) -> (
    r: serde_yaml_ng::Value)
    ensures
        r == *v,
;

/// Relies on the Clone impl of toml::Value: a derived, memberwise copy,
/// so the clone equals the original.
pub assume_specification[ <toml::Value as Clone>::clone ](v: &toml::Value) -> (r: toml::Value)
    ensures
        r == *v,
;

/// Rebuilds the tree with every scalar string equal to `old_path` replaced
/// by `new_path`; keys and opaque leaves are preserved.
pub fn replace_in_node(n: &Node, old_path: &str, new_path: &str) -> (r: Node)
    ensures
        node_view(r) == replace_tree(node_view(*n), old_path@, new_path@),
    decreases n,
{
    match n {
        Node::Str(s) => {
            if crate::text::str_eq(s.as_str(), old_path) {
                Node::Str(String::from_str(new_path))
            } else {
                Node::Str(s.clone())
            }
        },
        Node::List(items) => {
            let mut out: Vec<Node> = Vec::new();
            let mut i: usize = 0;
            while i < items.len()
                invariant
                    *n == Node::List(*items),
                    i <= items@.len(),
                    out@.len() == i,
                    forall|j: int|
                        0 <= j < i ==> node_view(#[trigger] out@[j]) == replace_tree(
                            node_view(items@[j]),
                            old_path@,
                            new_path@,
                        ),
                decreases items@.len() - i,
            {
                proof {
                    assert(decreases_to!(*n => items@[i as int])) by {
                        assert(n->List_0 == *items);
                        assert(decreases_to!(*n => n->List_0));
                        assert(decreases_to!(*items => items@));
                        assert(decreases_to!(items@ => items@[i as int]));
                    }
                }
                out.push(replace_in_node(&items[i], old_path, new_path));
                i = i + 1;
            }
            proof {
                lemma_views_of_list(out@);
                lemma_views_of_list(items@);
                lemma_replace_list_char(views_of_list(items@), old_path@, new_path@);
                assert(views_of_list(out@) =~= replace_list(
                    views_of_list(items@),
                    old_path@,
                    new_path@,
                ));
            }
            Node::List(out)
        },
        Node::Entries(kvs) => {
            let mut out: Vec<(Node, Node)> = Vec::new();
            let mut i: usize = 0;
            while i < kvs.len()
                invariant
                    *n == Node::Entries(*kvs),
                    i <= kvs@.len(),
                    out@.len() == i,
                    forall|j: int|
                        0 <= j < i ==> node_view(#[trigger] out@[j].0) == node_view(kvs@[j].0)
                            && node_view(out@[j].1) == replace_tree(
                            node_view(kvs@[j].1),
                            old_path@,
                            new_path@,
                        ),
                decreases kvs@.len() - i,
            {
                proof {
                    assert(decreases_to!(*n => kvs@[i as int].0)) by {
                        assert(n->Entries_0 == *kvs);
                        assert(decreases_to!(*n => n->Entries_0));
                        assert(decreases_to!(*kvs => kvs@));
                        assert(decreases_to!(kvs@ => kvs@[i as int]));
                        assert(decreases_to!(kvs@[i as int] => kvs@[i as int].0));
                    }
                    assert(decreases_to!(*n => kvs@[i as int].1)) by {
                        assert(n->Entries_0 == *kvs);
                        assert(decreases_to!(*n => n->Entries_0));
                        assert(decreases_to!(*kvs => kvs@));
                        assert(decreases_to!(kvs@ => kvs@[i as int]));
                        assert(decreases_to!(kvs@[i as int] => kvs@[i as int].1));
                    }
                }
                let key = clone_node(&kvs[i].0);
                let val = replace_in_node(&kvs[i].1, old_path, new_path);
                out.push((key, val));
                i = i + 1;
            }
            proof {
                lemma_views_of_entries(out@);
                lemma_views_of_entries(kvs@);
                lemma_replace_entries_char(views_of_entries(kvs@), old_path@, new_path@);
                assert(views_of_entries(out@) =~= replace_entries(
                    views_of_entries(kvs@),
                    old_path@,
                    new_path@,
                ));
            }
            Node::Entries(out)
        },
        Node::RawJson(v) => Node::RawJson(v.clone()),
        Node::RawYaml(v) => Node::RawYaml(v.clone()),
        Node::RawToml(v) => Node::RawToml(v.clone()),
    }
}

/// A structural copy of the tree; its view is unchanged.
pub fn clone_node(n: &Node) -> (r: Node)
    ensures
        node_view(r) == node_view(*n),
    decreases n,
{
    match n {
        Node::Str(s) => Node::Str(s.clone()),
        Node::List(items) => {
            let mut out: Vec<Node> = Vec::new();
            let mut i: usize = 0;
            while i < items.len()
                invariant
                    *n == Node::List(*items),
                    i <= items@.len(),
                    out@.len() == i,
                    forall|j: int|
                        0 <= j < i ==> node_view(#[trigger] out@[j]) == node_view(items@[j]),
                decreases items@.len() - i,
            {
                proof {
                    assert(decreases_to!(*n => items@[i as int])) by {
                        assert(n->List_0 == *items);
                        assert(decreases_to!(*n => n->List_0));
                        assert(decreases_to!(*items => items@));
                        assert(decreases_to!(items@ => items@[i as int]));
                    }
                }
                out.push(clone_node(&items[i]));
                i = i + 1;
            }
            proof {
                lemma_views_of_list(out@);
                lemma_views_of_list(items@);
                assert(views_of_list(out@) =~= views_of_list(items@));
            }
            Node::List(out)
        },
        Node::Entries(kvs) => {
            let mut out: Vec<(Node, Node)> = Vec::new();
            let mut i: usize = 0;
            while i < kvs.len()
                invariant
                    *n == Node::Entries(*kvs),
                    i <= kvs@.len(),
                    out@.len() == i,
                    forall|j: int|
                        0 <= j < i ==> node_view(#[trigger] out@[j].0) == node_view(kvs@[j].0)
                            && node_view(out@[j].1) == node_view(kvs@[j].1),
                decreases kvs@.len() - i,
            {
                proof {
                    assert(decreases_to!(*n => kvs@[i as int].0)) by {
                        assert(n->Entries_0 == *kvs);
                        assert(decreases_to!(*n => n->Entries_0));
                        assert(decreases_to!(*kvs => kvs@));
                        assert(decreases_to!(kvs@ => kvs@[i as int]));
                        assert(decreases_to!(kvs@[i as int] => kvs@[i as int].0));
                    }
                    assert(decreases_to!(*n => kvs@[i as int].1)) by {
                        assert(n->Entries_0 == *kvs);
                        assert(decreases_to!(*n => n->Entries_0));
                        assert(decreases_to!(*kvs => kvs@));
                        assert(decreases_to!(kvs@ => kvs@[i as int]));
                        assert(decreases_to!(kvs@[i as int] => kvs@[i as int].1));
                    }
                }
                out.push((clone_node(&kvs[i].0), clone_node(&kvs[i].1)));
                i = i + 1;
            }
            proof {
                lemma_views_of_entries(out@);
                lemma_views_of_entries(kvs@);
                assert(views_of_entries(out@) =~= views_of_entries(kvs@));
            }
            Node::Entries(out)
        },
        Node::RawJson(v) => Node::RawJson(v.clone()),
        Node::RawYaml(v) => Node::RawYaml(v.clone()),
        Node::RawToml(v) => Node::RawToml(v.clone()),
    }
}

pub proof fn lemma_views_of_list_singleton(x: Node)
    ensures
        views_of_list(seq![x]) == seq![node_view(x)],
{
    assert(seq![x].drop_first() =~= Seq::<Node>::empty());
    assert(views_of_list(Seq::<Node>::empty()) == Seq::<NodeView>::empty());
    assert(seq![node_view(x)] + Seq::<NodeView>::empty() =~= seq![node_view(x)]);
}

pub proof fn lemma_views_of_entries_singleton(x: (Node, Node))
    ensures
        views_of_entries(seq![x]) == seq![(node_view(x.0), node_view(x.1))],
{
    assert(seq![x].drop_first() =~= Seq::<(Node, Node)>::empty());
    assert(views_of_entries(Seq::<(Node, Node)>::empty()) == Seq::<(NodeView, NodeView)>::empty());
    assert(seq![(node_view(x.0), node_view(x.1))] + Seq::<(NodeView, NodeView)>::empty()
        =~= seq![(node_view(x.0), node_view(x.1))]);
}

pub proof fn lemma_strings_of_list_singleton(t: NodeView)
    ensures
        strings_of_list(seq![t]) == strings_of(t),
{
    assert(seq![t].drop_first() =~= Seq::<NodeView>::empty());
    assert(strings_of_list(Seq::<NodeView>::empty()) == Seq::<Seq<char>>::empty());
    assert(strings_of(t) + Seq::<Seq<char>>::empty() =~= strings_of(t));
}

pub proof fn lemma_strings_of_entries_singleton(t: (NodeView, NodeView))
    ensures
        strings_of_entries(seq![t]) == strings_of(t.1),
{
    assert(seq![t].drop_first() =~= Seq::<(NodeView, NodeView)>::empty());
    assert(strings_of_entries(Seq::<(NodeView, NodeView)>::empty()) == Seq::<Seq<char>>::empty());
    assert(strings_of(t.1) + Seq::<Seq<char>>::empty() =~= strings_of(t.1));
}

/// Collects every scalar string of the tree, in visiting order.
pub fn collect_strings(n: &Node) -> (r: Vec<String>)
    ensures
        r.deep_view() == strings_of(node_view(*n)),
    decreases n,
{
    match n {
        Node::Str(s) => {
            let mut r: Vec<String> = Vec::new();
            r.push(s.clone());
            proof {
                assert(r.deep_view() =~= strings_of(node_view(*n)));
            }
            r
        },
        Node::List(items) => {
            let mut r: Vec<String> = Vec::new();
            let mut i: usize = 0;
            proof {
                assert(items@.subrange(0, 0) =~= Seq::<Node>::empty());
                assert(r.deep_view() =~= strings_of_list(views_of_list(items@.subrange(0, 0))));
            }
            while i < items.len()
                invariant
                    *n == Node::List(*items),
                    i <= items@.len(),
                    r.deep_view() == strings_of_list(views_of_list(items@.subrange(0, i as int))),
                decreases items@.len() - i,
            {
                proof {
                    assert(decreases_to!(*n => items@[i as int])) by {
                        assert(n->List_0 == *items);
                        assert(decreases_to!(*n => n->List_0));
                        assert(decreases_to!(*items => items@));
                        assert(decreases_to!(items@ => items@[i as int]));
                    }
                }
                let mut sub = collect_strings(&items[i]);
                let ghost r_old = r.deep_view();
                let ghost sub_view = sub.deep_view();
                r.append(&mut sub);
                proof {
                    assert(r.deep_view() =~= r_old + sub_view);
                    let pre = items@.subrange(0, i as int);
                    let cur = items@.subrange(0, i + 1 as int);
                    assert(cur =~= pre + seq![items@[i as int]]);
                    lemma_views_of_list_concat(pre, seq![items@[i as int]]);
                    lemma_views_of_list_singleton(items@[i as int]);
                    lemma_strings_of_list_concat(
                        views_of_list(pre),
                        seq![node_view(items@[i as int])],
                    );
                    lemma_strings_of_list_singleton(node_view(items@[i as int]));
                }
                i = i + 1;
            }
            proof {
                assert(items@.subrange(0, items@.len() as int) =~= items@);
            }
            r
        },
        Node::Entries(kvs) => {
            let mut r: Vec<String> = Vec::new();
            let mut i: usize = 0;
            proof {
                assert(kvs@.subrange(0, 0) =~= Seq::<(Node, Node)>::empty());
                assert(r.deep_view() =~= strings_of_entries(
                    views_of_entries(kvs@.subrange(0, 0)),
                ));
            }
            while i < kvs.len()
                invariant
                    *n == Node::Entries(*kvs),
                    i <= kvs@.len(),
                    r.deep_view() == strings_of_entries(
                        views_of_entries(kvs@.subrange(0, i as int)),
                    ),
                decreases kvs@.len() - i,
            {
                proof {
                    assert(decreases_to!(*n => kvs@[i as int].1)) by {
                        assert(n->Entries_0 == *kvs);
                        assert(decreases_to!(*n => n->Entries_0));
                        assert(decreases_to!(*kvs => kvs@));
                        assert(decreases_to!(kvs@ => kvs@[i as int]));
                        assert(decreases_to!(kvs@[i as int] => kvs@[i as int].1));
                    }
                }
                let mut sub = collect_strings(&kvs[i].1);
                let ghost r_old = r.deep_view();
                let ghost sub_view = sub.deep_view();
                r.append(&mut sub);
                proof {
                    assert(r.deep_view() =~= r_old + sub_view);
                    let pre = kvs@.subrange(0, i as int);
                    let cur = kvs@.subrange(0, i + 1 as int);
                    assert(cur =~= pre + seq![kvs@[i as int]]);
                    lemma_views_of_entries_concat(pre, seq![kvs@[i as int]]);
                    lemma_views_of_entries_singleton(kvs@[i as int]);
                    lemma_strings_of_entries_concat(
                        views_of_entries(pre),
                        seq![(node_view(kvs@[i as int].0), node_view(kvs@[i as int].1))],
                    );
                    lemma_strings_of_entries_singleton(
                        (node_view(kvs@[i as int].0), node_view(kvs@[i as int].1)),
                    );
                }
                i = i + 1;
            }
            proof {
                assert(kvs@.subrange(0, kvs@.len() as int) =~= kvs@);
            }
            r
        },
        Node::RawJson(_) => {
            let r: Vec<String> = Vec::new();
            proof {
                assert(r.deep_view() =~= strings_of(node_view(*n)));
            }
            r
        },
        Node::RawYaml(_) => {
            let r: Vec<String> = Vec::new();
            proof {
                assert(r.deep_view() =~= strings_of(node_view(*n)));
            }
            r
        },
        Node::RawToml(_) => {
            let r: Vec<String> = Vec::new();
            proof {
                assert(r.deep_view() =~= strings_of(node_view(*n)));
            }
            r
        },
    }
}

pub proof fn lemma_views_of_list_concat(a: Seq<Node>, b: Seq<Node>)
    ensures
        views_of_list(a + b) == views_of_list(a) + views_of_list(b),
    decreases a.len(),
{
    if a.len() == 0 {
        assert(a + b =~= b);
        assert(views_of_list(a) + views_of_list(b) =~= views_of_list(b));
    } else {
        lemma_views_of_list_concat(a.drop_first(), b);
        assert((a + b).drop_first() =~= a.drop_first() + b);
        assert((a + b)[0] == a[0]);
        assert(seq![node_view(a[0])] + (views_of_list(a.drop_first()) + views_of_list(b))
            =~= (seq![node_view(a[0])] + views_of_list(a.drop_first())) + views_of_list(b));
    }
}

pub proof fn lemma_views_of_entries_concat(a: Seq<(Node, Node)>, b: Seq<(Node, Node)>)
    ensures
        views_of_entries(a + b) == views_of_entries(a) + views_of_entries(b),
    decreases a.len(),
{
    if a.len() == 0 {
        assert(a + b =~= b);
        assert(views_of_entries(a) + views_of_entries(b) =~= views_of_entries(b));
    } else {
        lemma_views_of_entries_concat(a.drop_first(), b);
        assert((a + b).drop_first() =~= a.drop_first() + b);
        assert((a + b)[0] == a[0]);
        assert(seq![(node_view(a[0].0), node_view(a[0].1))] + (views_of_entries(a.drop_first())
            + views_of_entries(b)) =~= (seq![(node_view(a[0].0), node_view(a[0].1))]
            + views_of_entries(a.drop_first())) + views_of_entries(b));
    }
}

/// Decides view equality of two trees: same scalar strings, same shape,
/// with all opaque leaves alike.
pub fn node_views_equal(a: &Node, b: &Node) -> (r: bool)
    ensures
        r == (node_view(*a) == node_view(*b)),
    decreases a,
{
    match (a, b) {
        (Node::Str(x), Node::Str(y)) => crate::text::str_eq(x.as_str(), y.as_str()),
        (Node::List(xs), Node::List(ys)) => {
            proof {
                lemma_views_of_list(xs@);
                lemma_views_of_list(ys@);
            }
            if xs.len() != ys.len() {
                return false;
            }
            let mut i: usize = 0;
            while i < xs.len()
                invariant
                    *a == Node::List(*xs),
                    *b == Node::List(*ys),
                    xs@.len() == ys@.len(),
                    i <= xs@.len(),
                    forall|j: int|
                        0 <= j < i ==> node_view(#[trigger] xs@[j]) == node_view(ys@[j]),
                decreases xs@.len() - i,
            {
                proof {
                    assert(decreases_to!(*a => xs@[i as int])) by {
                        assert(a->List_0 == *xs);
                        assert(decreases_to!(*a => a->List_0));
                        assert(decreases_to!(*xs => xs@));
                        assert(decreases_to!(xs@ => xs@[i as int]));
                    }
                }
                if !node_views_equal(&xs[i], &ys[i]) {
                    proof {
                        lemma_views_of_list(xs@);
                        lemma_views_of_list(ys@);
                        assert(views_of_list(xs@)[i as int] != views_of_list(ys@)[i as int]);
                    }
                    return false;
                }
                i = i + 1;
            }
            proof {
                lemma_views_of_list(xs@);
                lemma_views_of_list(ys@);
                assert(views_of_list(xs@) =~= views_of_list(ys@));
            }
            true
        },
        (Node::Entries(xs), Node::Entries(ys)) => {
            proof {
                lemma_views_of_entries(xs@);
                lemma_views_of_entries(ys@);
            }
            if xs.len() != ys.len() {
                return false;
            }
            let mut i: usize = 0;
            while i < xs.len()
                invariant
                    *a == Node::Entries(*xs),
                    *b == Node::Entries(*ys),
                    xs@.len() == ys@.len(),
                    i <= xs@.len(),
                    forall|j: int|
                        0 <= j < i ==> node_view(#[trigger] xs@[j].0) == node_view(ys@[j].0)
                            && node_view(xs@[j].1) == node_view(ys@[j].1),
                decreases xs@.len() - i,
            {
                proof {
                    assert(decreases_to!(*a => xs@[i as int].0)) by {
                        assert(a->Entries_0 == *xs);
                        assert(decreases_to!(*a => a->Entries_0));
                        assert(decreases_to!(*xs => xs@));
                        assert(decreases_to!(xs@ => xs@[i as int]));
                        assert(decreases_to!(xs@[i as int] => xs@[i as int].0));
                    }
                    assert(decreases_to!(*a => xs@[i as int].1)) by {
                        assert(a->Entries_0 == *xs);
                        assert(decreases_to!(*a => a->Entries_0));
                        assert(decreases_to!(*xs => xs@));
                        assert(decreases_to!(xs@ => xs@[i as int]));
                        assert(decreases_to!(xs@[i as int] => xs@[i as int].1));
                    }
                }
                let keys_eq = node_views_equal(&xs[i].0, &ys[i].0);
                let vals_eq = node_views_equal(&xs[i].1, &ys[i].1);
                if !(keys_eq && vals_eq) {
                    proof {
                        lemma_views_of_entries(xs@);
                        lemma_views_of_entries(ys@);
                        assert(views_of_entries(xs@)[i as int] != views_of_entries(ys@)[
                            i as int
                        ]);
                    }
                    return false;
                }
                i = i + 1;
            }
            proof {
                lemma_views_of_entries(xs@);
                lemma_views_of_entries(ys@);
                assert(views_of_entries(xs@) =~= views_of_entries(ys@));
            }
            true
        },
        (
            Node::RawJson(_) | Node::RawYaml(_) | Node::RawToml(_),
            Node::RawJson(_) | Node::RawYaml(_) | Node::RawToml(_),
        ) => true,
        _ => {
            proof {
                assert(node_view(*a) != node_view(*b));
            }
            false
        },
    }
}

} // verus!
