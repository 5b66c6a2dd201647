//! What holds of every forest of scopes, whatever was done to it.
//!
//! The executable operations state their effect as a new forest: a write is
//! `bind` at some node, a new scope is a `push`.  The proof functions of this
//! module say what lookups return in such a forest.

use crate::model::{
    assign_target, bind, binder, encloses, fresh_child, fresh_root, linked, lookup, root_of,
    same_tree, unbound_below, unshadowed, well_linked, ScopeModel,
};
use vstd::prelude::*;

verus! {

/// The cached root of a node is a node of the forest, not younger than the
/// node itself, and has no parent.
pub proof fn lemma_root_of<T>(f: Seq<ScopeModel<T>>, at: int)
    requires
        well_linked(f),
        0 <= at < f.len(),
    ensures
        0 <= root_of(f, at) <= at,
        f[root_of(f, at)].parent is None,
        f[root_of(f, at)].root is None,
        f[at].parent is None <==> root_of(f, at) == at,
    decreases at,
{
    assert(linked(f, at));
    match f[at].parent {
        Some(p) => {
            lemma_root_of(f, p);
        },
        None => {},
    }
}

/// Binding a name in one node leaves every link as it was, so the trees keep
/// their shape.
pub proof fn lemma_bind_links<T>(f: Seq<ScopeModel<T>>, at: int, id: Seq<char>, val: T)
    requires
        well_linked(f),
        0 <= at < f.len(),
    ensures
        well_linked(bind(f, at, id, val)),
        bind(f, at, id, val).len() == f.len(),
        forall|n: int|
            0 <= n < f.len() ==> (#[trigger] bind(f, at, id, val)[n]).parent == f[n].parent && bind(
                f,
                at,
                id,
                val,
            )[n].root == f[n].root,
{
    let g = bind(f, at, id, val);
    assert forall|n: int| 0 <= n < g.len() implies #[trigger] linked(g, n) by {
        assert(linked(f, n));
    }
}

/// A forest stays well linked when a fresh root is added at its end.
pub proof fn lemma_push_root_links<T>(f: Seq<ScopeModel<T>>)
    requires
        well_linked(f),
    ensures
        well_linked(f.push(fresh_root())),
{
    let g = f.push(fresh_root());
    assert forall|n: int| 0 <= n < g.len() implies #[trigger] linked(g, n) by {
        if n < f.len() {
            assert(linked(f, n));
        }
    }
}

/// A forest stays well linked when a fresh child of one of its nodes is
/// added at its end, and the child belongs to the tree of that node.
pub proof fn lemma_push_child_links<T>(f: Seq<ScopeModel<T>>, at: int)
    requires
        well_linked(f),
        0 <= at < f.len(),
    ensures
        well_linked(f.push(fresh_child(f, at))),
        same_tree(f.push(fresh_child(f, at)), f.len() as int, at),
        encloses(f.push(fresh_child(f, at)), at, f.len() as int),
{
    let g = f.push(fresh_child(f, at));
    assert forall|n: int| 0 <= n < g.len() implies #[trigger] linked(g, n) by {
        if n < f.len() {
            assert(linked(f, n));
        }
    }
    assert(encloses(g, at, at));
}

/// A node that encloses another is a node of the forest and is not younger
/// than the node it encloses.
pub proof fn lemma_encloses_older<T>(f: Seq<ScopeModel<T>>, outer: int, inner: int)
    requires
        encloses(f, outer, inner),
    ensures
        0 <= outer <= inner < f.len(),
    decreases inner,
{
    if outer != inner {
        lemma_encloses_older(f, outer, f[inner].parent.unwrap());
    }
}

/// The ancestors of a node form one line: of two nodes that enclose the same
/// node, one encloses the other.
pub proof fn lemma_encloses_linear<T>(f: Seq<ScopeModel<T>>, a: int, b: int, m: int)
    requires
        encloses(f, a, m),
        encloses(f, b, m),
    ensures
        encloses(f, a, b) || encloses(f, b, a),
    decreases m,
{
    if a != m && b != m {
        lemma_encloses_linear(f, a, b, f[m].parent.unwrap());
    }
}

/// Every node is enclosed by the root of its tree, belongs to the tree of
/// each node that encloses it, and is enclosed by no other node without a
/// parent: a tree has exactly one root.
pub proof fn lemma_root_encloses<T>(f: Seq<ScopeModel<T>>, x: int, m: int)
    requires
        well_linked(f),
        0 <= m < f.len(),
    ensures
        encloses(f, root_of(f, m), m),
        encloses(f, x, m) ==> same_tree(f, x, m),
        encloses(f, x, m) && f[x].parent is None ==> x == root_of(f, m),
    decreases m,
{
    assert(linked(f, m));
    match f[m].parent {
        Some(p) => {
            lemma_root_encloses(f, x, p);
        },
        None => {},
    }
    if encloses(f, x, m) {
        lemma_encloses_older(f, x, m);
    }
}

/// The nearest binder of a name, where there is one, is a node of the forest
/// that encloses the node the search began at, and binds the name.
pub proof fn lemma_binder<T>(f: Seq<ScopeModel<T>>, at: int, id: Seq<char>)
    ensures
        match binder(f, at, id) {
            Some(n) => 0 <= n <= at < f.len() && encloses(f, n, at) && f[n].bindings.contains_key(
                id,
            ),
            None => true,
        },
    decreases at,
{
    if 0 <= at < f.len() && !f[at].bindings.contains_key(id) {
        match f[at].parent {
            Some(p) => {
                if 0 <= p < at {
                    lemma_binder(f, p, id);
                }
            },
            None => {},
        }
    }
}

/// How `unshadowed` follows the parent link: a search from a node other than
/// `to` comes as far as `to` exactly if the node does not bind the name and
/// the search from its parent comes as far as `to`.
pub proof fn lemma_unshadowed_step<T>(f: Seq<ScopeModel<T>>, from: int, to: int, id: Seq<char>)
    requires
        0 <= from < f.len(),
    ensures
        from == to ==> unshadowed(f, from, to, id),
        from != to ==> (unshadowed(f, from, to, id) <==> !f[from].bindings.contains_key(id)
            && f[from].parent is Some && 0 <= f[from].parent.unwrap() < from && unshadowed(
            f,
            f[from].parent.unwrap(),
            to,
            id,
        )),
{
    if from == to {
        assert forall|x: int| encloses(f, x, from) && encloses(f, to, x) && x != to implies false by {
            lemma_encloses_older(f, x, from);
            lemma_encloses_older(f, to, x);
        }
    } else if f[from].parent is Some && 0 <= f[from].parent.unwrap() < from {
        let p = f[from].parent.unwrap();
        if unshadowed(f, from, to, id) {
            assert(encloses(f, from, from));
            assert forall|x: int|
                encloses(f, x, p) && encloses(f, to, x) && x != to implies !f[x].bindings.contains_key(
                id,
            ) by {
                assert(encloses(f, x, from));
            }
        }
        if !f[from].bindings.contains_key(id) && unshadowed(f, p, to, id) {
            assert forall|x: int|
                encloses(f, x, from) && encloses(f, to, x) && x != to implies !f[x].bindings.contains_key(
                id,
            ) by {
                if x != from {
                    assert(encloses(f, x, p));
                }
            }
        }
    }
}

/// Lookup finds the nearest binding: the node it reads from encloses the
/// node the lookup was made at, binds the name, and no node nearer than it
/// does; and where lookup finds nothing, no enclosing node binds the name.
pub proof fn lemma_lookup_nearest<T>(f: Seq<ScopeModel<T>>, at: int, id: Seq<char>)
    requires
        0 <= at < f.len(),
    ensures
        match binder(f, at, id) {
            Some(n) => f[n].bindings.contains_key(id) && unshadowed(f, at, n, id) && lookup(
                f,
                at,
                id,
            ) == Some(f[n].bindings[id]),
            None => lookup(f, at, id) is None && forall|x: int| #[trigger]
                encloses(f, x, at) ==> !f[x].bindings.contains_key(id),
        },
    decreases at,
{
    if f[at].bindings.contains_key(id) {
        lemma_unshadowed_step(f, at, at, id);
    } else if f[at].parent is Some && 0 <= f[at].parent.unwrap() < at {
        let p = f[at].parent.unwrap();
        lemma_lookup_nearest(f, p, id);
        match binder(f, at, id) {
            Some(n) => {
                lemma_unshadowed_step(f, at, n, id);
            },
            None => {
                assert forall|x: int| #[trigger] encloses(f, x, at) implies !f[x].bindings.contains_key(
                    id,
                ) by {
                    if x != at {
                        assert(encloses(f, x, p));
                    }
                }
            },
        }
    }
}

/// Reading after a write.  After node `to` has bound `id` to `val`, a lookup
/// of `id` returns `val` from `to` and from each of its descendants that no
/// nearer binding of `id` shadows; every other lookup, of any name from any
/// node, returns what it returned before.
pub proof fn lemma_read_after_write<T>(
    f: Seq<ScopeModel<T>>,
    to: int,
    id: Seq<char>,
    val: T,
    from: int,
    name: Seq<char>,
)
    requires
        0 <= to < f.len(),
    ensures
        lookup(bind(f, to, id, val), from, name) == if name == id && unshadowed(f, from, to, id) {
            Some(val)
        } else {
            lookup(f, from, name)
        },
        binder(bind(f, to, id, val), from, name) == if name == id && unshadowed(f, from, to, id) {
            Some(to)
        } else {
            binder(f, from, name)
        },
    decreases from,
{
    let g = bind(f, to, id, val);
    if 0 <= from < f.len() {
        lemma_unshadowed_step(f, from, to, id);
        if !g[from].bindings.contains_key(name) {
            if f[from].parent is Some && 0 <= f[from].parent.unwrap() < from {
                lemma_read_after_write(f, to, id, val, f[from].parent.unwrap(), name);
            }
        }
    }
}

/// The latest write wins: of two bindings of one name made in one node, one
/// after the other, the forest keeps the second alone.
pub proof fn lemma_later_write_wins<T>(
    f: Seq<ScopeModel<T>>,
    to: int,
    id: Seq<char>,
    first: T,
    second: T,
)
    requires
        0 <= to < f.len(),
    ensures
        bind(bind(f, to, id, first), to, id, second) == bind(f, to, id, second),
{
    assert(bind(bind(f, to, id, first), to, id, second)[to].bindings =~= bind(
        f,
        to,
        id,
        second,
    )[to].bindings);
}

/// Shadowing.  A binding made in a node itself wins over every binding of
/// the same name further out: the node reads it back, and so does each of its
/// descendants that no nearer binding of the name shadows.
pub proof fn lemma_local_binding_shadows<T>(
    f: Seq<ScopeModel<T>>,
    at: int,
    id: Seq<char>,
    val: T,
    from: int,
)
    requires
        0 <= at < f.len(),
    ensures
        lookup(bind(f, at, id, val), at, id) == Some(val),
        unshadowed(f, from, at, id) ==> lookup(bind(f, at, id, val), from, id) == Some(val),
{
    lemma_read_after_write(f, at, id, val, from, id);
}

/// A binding made in the root of a tree is read from every node of that
/// tree, at any depth, unless a node on the way from there to the root, the
/// root left aside, shadows it with a binding of its own.
pub proof fn lemma_global_binding_reaches_tree<T>(
    f: Seq<ScopeModel<T>>,
    at: int,
    id: Seq<char>,
    val: T,
    from: int,
)
    requires
        well_linked(f),
        0 <= at < f.len(),
        0 <= from < f.len(),
        same_tree(f, from, at),
    ensures
        encloses(f, root_of(f, at), from),
        unbound_below(f, from, root_of(f, at), id) <==> forall|x: int| #[trigger]
            encloses(f, x, from) && x != root_of(f, at) ==> !f[x].bindings.contains_key(id),
        unbound_below(f, from, root_of(f, at), id) ==> lookup(
            bind(f, root_of(f, at), id, val),
            from,
            id,
        ) == Some(val),
{
    let top = root_of(f, at);
    lemma_root_of(f, at);
    lemma_root_encloses(f, from, from);
    lemma_lookup_nearest(f, from, id);
    lemma_read_after_write(f, top, id, val, from, id);
    if binder(f, from, id) == Some(top) {
        assert forall|x: int| #[trigger] encloses(f, x, from) && x != top implies !f[x].bindings.contains_key(
            id,
        ) by {
            lemma_root_encloses(f, x, from);
            lemma_encloses_older(f, x, from);
            lemma_root_encloses(f, x, x);
        }
    }
}

/// Rebinding a name where it is bound already is read back: after the
/// nearest binder of `id`, as seen from `at`, has bound `id` to `val`, a lookup
/// of `id` from `at` returns `val`, and still reads it from that node.
pub proof fn lemma_rebinding_read_back<T>(f: Seq<ScopeModel<T>>, at: int, id: Seq<char>, val: T)
    requires
        0 <= at < f.len(),
        binder(f, at, id) is Some,
    ensures
        lookup(bind(f, binder(f, at, id).unwrap(), id, val), at, id) == Some(val),
        binder(bind(f, binder(f, at, id).unwrap(), id, val), at, id) == binder(f, at, id),
{
    lemma_binder(f, at, id);
    lemma_read_after_write(f, binder(f, at, id).unwrap(), id, val, at, id);
}

/// Assignment to a name that an ancestor binds.  Where the nearest binder of
/// `id`, as seen from `at`, is an ancestor `owner` of `at`, a lexical assignment
/// issued at `at` writes to `owner`: node `at` is left as it was and binds `id`
/// no more than before, and every node whose lookup of `id` read from `owner`,
/// in whatever subtree below `owner` it stands, now reads the new value.
pub proof fn lemma_assignment_reaches_ancestor<T>(
    f: Seq<ScopeModel<T>>,
    at: int,
    owner: int,
    id: Seq<char>,
    val: T,
    from: int,
)
    requires
        0 <= at < f.len(),
        binder(f, at, id) == Some(owner),
        owner != at,
    ensures
        assign_target(f, at, id) == owner,
        encloses(f, owner, at),
        bind(f, owner, id, val)[at] == f[at],
        !bind(f, owner, id, val)[at].bindings.contains_key(id),
        lookup(bind(f, owner, id, val), at, id) == Some(val),
        binder(f, from, id) == Some(owner) ==> lookup(bind(f, owner, id, val), from, id) == Some(
            val,
        ),
{
    lemma_binder(f, at, id);
    lemma_rebinding_read_back(f, at, id, val);
    if binder(f, from, id) == Some(owner) {
        lemma_rebinding_read_back(f, from, id, val);
    }
}

/// Assignment to a name that is bound nowhere on the way to the root.  A
/// lexical assignment issued at `at` then binds the name in `at` itself: `at`
/// reads it back, so does each descendant of `at` that no nearer binding
/// shadows, and a node that `at` does not enclose reads what it read before.
pub proof fn lemma_assignment_declares_locally<T>(
    f: Seq<ScopeModel<T>>,
    at: int,
    id: Seq<char>,
    val: T,
    from: int,
)
    requires
        0 <= at < f.len(),
        binder(f, at, id) is None,
    ensures
        assign_target(f, at, id) == at,
        lookup(bind(f, at, id, val), at, id) == Some(val),
        unshadowed(f, from, at, id) ==> lookup(bind(f, at, id, val), from, id) == Some(val),
        !encloses(f, at, from) ==> lookup(bind(f, at, id, val), from, id) == lookup(f, from, id),
{
    lemma_read_after_write(f, at, id, val, from, id);
}

/// Adding a node at the end of a forest changes no lookup made from the
/// nodes that were there before.
pub proof fn lemma_push_keeps_lookups<T>(
    f: Seq<ScopeModel<T>>,
    node: ScopeModel<T>,
    from: int,
    id: Seq<char>,
)
    requires
        0 <= from < f.len(),
    ensures
        binder(f.push(node), from, id) == binder(f, from, id),
        lookup(f.push(node), from, id) == lookup(f, from, id),
    decreases from,
{
    if !f[from].bindings.contains_key(id) && f[from].parent is Some && 0 <= f[from].parent.unwrap()
        < from {
        lemma_push_keeps_lookups(f, node, f[from].parent.unwrap(), id);
    }
}

/// A new child reads every name as its parent does, so a binding that only
/// an ancestor holds is found from the child; and the child's arrival changes
/// no lookup made from another node.
pub proof fn lemma_child_reads_as_parent<T>(
    f: Seq<ScopeModel<T>>,
    at: int,
    from: int,
    id: Seq<char>,
)
    requires
        0 <= at < f.len(),
    ensures
        lookup(f.push(fresh_child(f, at)), f.len() as int, id) == lookup(f, at, id),
        0 <= from < f.len() ==> lookup(f.push(fresh_child(f, at)), from, id) == lookup(
            f,
            from,
            id,
        ),
{
    lemma_push_keeps_lookups(f, fresh_child(f, at), at, id);
    if 0 <= from < f.len() {
        lemma_push_keeps_lookups(f, fresh_child(f, at), from, id);
    }
}

/// Siblings are apart.  Of two different nodes with the same parent, or two
/// different roots, neither encloses what the other encloses; so a binding
/// made in one of them changes no lookup made from the subtree of the other.
pub proof fn lemma_sibling_subtrees_apart<T>(
    f: Seq<ScopeModel<T>>,
    a: int,
    b: int,
    id: Seq<char>,
    val: T,
    from: int,
    name: Seq<char>,
)
    requires
        well_linked(f),
        0 <= a < f.len(),
        0 <= b < f.len(),
        a != b,
        f[a].parent == f[b].parent,
        encloses(f, b, from),
    ensures
        !encloses(f, a, from),
        lookup(bind(f, a, id, val), from, name) == lookup(f, from, name),
{
    assert(linked(f, a));
    assert(linked(f, b));
    if encloses(f, a, from) {
        lemma_encloses_linear(f, a, b, from);
        if encloses(f, a, b) {
            lemma_encloses_older(f, a, f[b].parent.unwrap());
        } else {
            lemma_encloses_older(f, b, f[a].parent.unwrap());
        }
    }
    lemma_read_after_write(f, a, id, val, from, name);
}

} // verus!
