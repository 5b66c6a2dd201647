//! The mathematical model of a forest of scopes.
//!
//! A forest is a sequence of nodes.  A node is named by its position in the
//! sequence, and refers to its parent and to the root of its tree by their
//! positions.  Everything the executable operations promise is stated over
//! the spec functions of this module.

use vstd::prelude::*;

verus! {

/// What one scope is: its own bindings and its two links.
pub struct ScopeModel<T> {
    /// The names bound in this scope itself.
    pub bindings: Map<Seq<char>, T>,
    /// The enclosing scope; `None` exactly for the root of a tree.
    pub parent: Option<int>,
    /// The root of the tree this scope belongs to; `None` exactly for the root itself.
    pub root: Option<int>,
}

/// A scope that stands at the top of a tree of its own and binds nothing.
pub open spec fn fresh_root<T>() -> ScopeModel<T> {
    ScopeModel { bindings: Map::empty(), parent: None, root: None }
}

/// The scope that a new child of node `at` starts as: it binds nothing, hangs
/// below `at`, and remembers the root of the tree that `at` belongs to.
pub open spec fn fresh_child<T>(f: Seq<ScopeModel<T>>, at: int) -> ScopeModel<T> {
    ScopeModel { bindings: Map::empty(), parent: Some(at), root: Some(root_of(f, at)) }
}

/// The root of the tree that node `at` belongs to, read off the node's cached link.
pub open spec fn root_of<T>(f: Seq<ScopeModel<T>>, at: int) -> int {
    match f[at].root {
        Some(r) => r,
        None => at,
    }
}

/// The links of node `at` are sound: a root caches no root, and any other node
/// hangs below an older node and caches the root of that node's tree.
pub open spec fn linked<T>(f: Seq<ScopeModel<T>>, at: int) -> bool {
    match f[at].parent {
        Some(p) => 0 <= p < at && f[at].root == Some(root_of(f, p)),
        None => f[at].root is None,
    }
}

/// Every node of the forest has sound links.
pub open spec fn well_linked<T>(f: Seq<ScopeModel<T>>) -> bool {
    forall|at: int| 0 <= at < f.len() ==> #[trigger] linked(f, at)
}

/// Whether `outer` is `inner` itself or one of its ancestors.
pub open spec fn encloses<T>(f: Seq<ScopeModel<T>>, outer: int, inner: int) -> bool
    decreases inner,
{
    if !(0 <= inner < f.len()) {
        false
    } else if outer == inner {
        true
    } else {
        match f[inner].parent {
            Some(p) => 0 <= p < inner && encloses(f, outer, p),
            None => false,
        }
    }
}

/// Whether nodes `a` and `b` belong to the same tree.
pub open spec fn same_tree<T>(f: Seq<ScopeModel<T>>, a: int, b: int) -> bool {
    root_of(f, a) == root_of(f, b)
}

/// Whether a search for `id` that starts at node `from` comes as far as node
/// `to`: `to` is `from` or one of its ancestors, and no node on the way from
/// `from` to `to`, `to` itself left aside, binds `id`.
pub open spec fn unshadowed<T>(f: Seq<ScopeModel<T>>, from: int, to: int, id: Seq<char>) -> bool {
    &&& encloses(f, to, from)
    &&& forall|x: int|
        #![trigger encloses(f, x, from)]
        encloses(f, x, from) && encloses(f, to, x) && x != to ==> !f[x].bindings.contains_key(id)
}

/// The nearest node that binds `id`, searching from `at` outward through its
/// ancestors; `None` where no node on that chain binds `id`.
pub open spec fn binder<T>(f: Seq<ScopeModel<T>>, at: int, id: Seq<char>) -> Option<int>
    decreases at,
{
    if !(0 <= at < f.len()) {
        None
    } else if f[at].bindings.contains_key(id) {
        Some(at)
    } else {
        match f[at].parent {
            Some(p) => if 0 <= p < at {
                binder(f, p, id)
            } else {
                None
            },
            None => None,
        }
    }
}

/// Whether a search for `id` from node `from` passes every node below `top`:
/// the nearest binder of `id`, as seen from `from`, is `top`, or there is none.
pub open spec fn unbound_below<T>(f: Seq<ScopeModel<T>>, from: int, top: int, id: Seq<char>) -> bool {
    match binder(f, from, id) {
        Some(n) => n == top,
        None => true,
    }
}

/// The value that `id` resolves to when looked up from node `at`.
pub open spec fn lookup<T>(f: Seq<ScopeModel<T>>, at: int, id: Seq<char>) -> Option<T> {
    match binder(f, at, id) {
        Some(n) => Some(f[n].bindings[id]),
        None => None,
    }
}

/// The forest in which node `at` binds `id` to `val` and all else is as in `f`.
pub open spec fn bind<T>(f: Seq<ScopeModel<T>>, at: int, id: Seq<char>, val: T) -> Seq<
    ScopeModel<T>,
> {
    f.update(at, ScopeModel { bindings: f[at].bindings.insert(id, val), ..f[at] })
}

/// The node that a lexical assignment to `id`, issued at node `at`, writes to:
/// the nearest node that binds `id` already, else `at` itself.
pub open spec fn assign_target<T>(f: Seq<ScopeModel<T>>, at: int, id: Seq<char>) -> int {
    match binder(f, at, id) {
        Some(n) => n,
        None => at,
    }
}

} // verus!
