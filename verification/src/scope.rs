//! Scopes, the arena that stores them, and the handles that name them.
//!
//! All scopes of a program live in one [`ScopeArena`].  A [`PScope`] is a
//! small copyable handle to one of them, so any number of handles may name
//! the same scope, and a write made through one of them is seen through all.
//! A scope reaches its parent and the root of its tree through the arena, by
//! position; a child is always stored behind its parent, so the way from a
//! scope to its root runs through ever smaller positions and ends.
//!
//! Every operation takes the arena beside the scope it is issued at.  Taking
//! the arena by `&mut` gives a write the whole tree for itself: no second
//! write, and no transform handed to `update`, can reach a scope meanwhile.

use crate::bindings::Bindings;
use crate::laws::{
    lemma_bind_links, lemma_binder, lemma_global_binding_reaches_tree, lemma_push_child_links,
    lemma_push_root_links, lemma_read_after_write, lemma_rebinding_read_back, lemma_root_of,
};
use crate::model::{
    assign_target, bind, binder, fresh_child, fresh_root, linked, lookup, root_of, same_tree,
    unbound_below, unshadowed, well_linked, ScopeModel,
};
use std::marker::PhantomData;
use vstd::prelude::*;

verus! {

/// A link between scopes, as the model counts positions.
spec fn position(link: Option<usize>) -> Option<int> {
    match link {
        Some(n) => Some(n as int),
        None => None,
    }
}

/// One scope: its own bindings, its parent, and the cached root of its tree.
pub struct Scope<T> {
    data: Bindings<T>,
    parent: Option<usize>,
    root: Option<usize>,
}

impl<T> View for Scope<T> {
    type V = ScopeModel<T>;

    closed spec fn view(&self) -> ScopeModel<T> {
        ScopeModel {
            bindings: self.data@,
            parent: position(self.parent),
            root: position(self.root),
        }
    }
}

/// The store of all scopes.  Its view is the forest of their models, in the
/// order in which the scopes were created.
pub struct ScopeArena<T> {
    nodes: Vec<Scope<T>>,
}

impl<T> View for ScopeArena<T> {
    type V = Seq<ScopeModel<T>>;

    closed spec fn view(&self) -> Seq<ScopeModel<T>> {
        Seq::new(self.nodes@.len(), |n: int| self.nodes@[n]@)
    }
}

impl<T> ScopeArena<T> {
    /// The name table of every stored scope is sound.
    pub closed spec fn tables_wf(&self) -> bool {
        forall|n: int| 0 <= n < self.nodes@.len() ==> (#[trigger] self.nodes@[n]).wf()
    }

    /// The arena is sound: its tables are, and its scopes form well linked trees.
    pub open spec fn wf(&self) -> bool {
        self.tables_wf() && well_linked(self@)
    }

    /// An arena that holds no scope yet.
    pub fn new() -> (arena: Self)
        ensures
            arena.wf(),
            arena@ == Seq::<ScopeModel<T>>::empty(),
    {
        let arena = ScopeArena { nodes: Vec::new() };
        arena
    }

    /// The number of scopes created in this arena so far.
    pub fn len(&self) -> (count: usize)
        ensures
            count == self@.len(),
    {
        self.nodes.len()
    }

    /// Whether `scope` names a scope of this arena.
    pub fn contains(&self, scope: &PScope<T>) -> (held: bool)
        ensures
            held == (scope@ < self@.len()),
    {
        scope.at < self.nodes.len()
    }

    /// The nearest scope that binds `id`, searching from `at` outward.
    fn resolve(&self, at: usize, id: &str) -> (found: Option<usize>)
        requires
            self.wf(),
            at < self@.len(),
        ensures
            position(found) == binder(self@, at as int, id@),
    {
        let mut cur = at;
        loop
            invariant
                self.wf(),
                cur < self@.len(),
                binder(self@, cur as int, id@) == binder(self@, at as int, id@),
            decreases cur,
        {
            if self.nodes[cur].data.contains(id) {
                return Some(cur);
            }
            match self.nodes[cur].parent {
                Some(p) => {
                    assert(linked(self@, cur as int));
                    cur = p;
                },
                None => {
                    return None;
                },
            }
        }
    }
}

/// The operations on scopes, by position: each takes the arena and the
/// position `at` of the scope it is issued at.
impl<T> Scope<T> {
    /// The name table of this scope is sound.
    spec fn wf(&self) -> bool {
        self.data.wf()
    }

    /// A scope that binds nothing and stands at the top of a tree of its own.
    fn new() -> (scope: Self)
        ensures
            scope.wf(),
            scope@ == fresh_root::<T>(),
    {
        Scope { data: Bindings::new(), parent: None, root: None }
    }

    /// Binds `id` to `val` in scope `at` itself, whatever its ancestors bind.
    /// The binding shadows those of its ancestors: `val` is read from `at`
    /// and from each descendant of `at` that no nearer binding shadows.
    pub fn set_local(arena: &mut ScopeArena<T>, at: usize, id: String, val: T)
        requires
            old(arena).wf(),
            at < old(arena)@.len(),
        ensures
            final(arena).wf(),
            final(arena)@.len() == old(arena)@.len(),
            final(arena)@ == bind(old(arena)@, at as int, id@, val),
            lookup(final(arena)@, at as int, id@) == Some(val),
            forall|from: int|
                unshadowed(old(arena)@, from, at as int, id@) ==> #[trigger] lookup(
                    final(arena)@,
                    from,
                    id@,
                ) == Some(val),
    {
        arena.nodes[at].data.insert(id, val);
        proof {
            lemma_bind_links(old(arena)@, at as int, id@, val);
            assert(arena@ =~= bind(old(arena)@, at as int, id@, val));
            assert forall|from: int| unshadowed(old(arena)@, from, at as int, id@) implies lookup(
                arena@,
                from,
                id@,
            ) == Some(val) by {
                lemma_read_after_write(old(arena)@, at as int, id@, val, from, id@);
            }
        }
    }

    /// Binds `id` to `val` in the root of the tree that scope `at` belongs to.
    /// The binding is read from every scope of that tree, but for those that a
    /// binding of `id` below the root shadows.
    pub fn set_global(arena: &mut ScopeArena<T>, at: usize, id: String, val: T)
        requires
            old(arena).wf(),
            at < old(arena)@.len(),
        ensures
            final(arena).wf(),
            final(arena)@.len() == old(arena)@.len(),
            final(arena)@ == bind(old(arena)@, root_of(old(arena)@, at as int), id@, val),
            forall|from: int|
                0 <= from < old(arena)@.len() && same_tree(old(arena)@, from, at as int)
                    && unbound_below(old(arena)@, from, root_of(old(arena)@, at as int), id@)
                    ==> #[trigger] lookup(final(arena)@, from, id@) == Some(val),
    {
        proof {
            lemma_root_of(arena@, at as int);
        }
        match arena.nodes[at].root {
            Some(top) => Self::set_local(arena, top, id, val),
            None => Self::set_local(arena, at, id, val),
        }
        proof {
            let top = root_of(old(arena)@, at as int);
            assert forall|from: int|
                0 <= from < old(arena)@.len() && same_tree(old(arena)@, from, at as int)
                    && unbound_below(old(arena)@, from, top, id@) implies lookup(arena@, from, id@)
                == Some(val) by {
                lemma_global_binding_reaches_tree(old(arena)@, at as int, id@, val, from);
            }
        }
    }

    /// Lexical assignment from scope `at`: overwrites the nearest binding of
    /// `id` on the way from `at` to the root, where it stands; where no scope
    /// on that way binds `id`, binds it in scope `at` itself.  Either way `at`
    /// reads `val` back, and where the write went to an ancestor, `at` is left
    /// as it was.
    pub fn set(arena: &mut ScopeArena<T>, at: usize, id: String, val: T)
        requires
            old(arena).wf(),
            at < old(arena)@.len(),
        ensures
            final(arena).wf(),
            final(arena)@.len() == old(arena)@.len(),
            final(arena)@ == bind(
                old(arena)@,
                assign_target(old(arena)@, at as int, id@),
                id@,
                val,
            ),
            lookup(final(arena)@, at as int, id@) == Some(val),
            assign_target(old(arena)@, at as int, id@) != at ==> final(arena)@[at as int] == old(
                arena,
            )@[at as int],
    {
        proof {
            lemma_binder(arena@, at as int, id@);
            if binder(arena@, at as int, id@) is Some {
                lemma_rebinding_read_back(arena@, at as int, id@, val);
            }
        }
        if arena.nodes[at].data.contains(id.as_str()) {
            Self::set_local(arena, at, id, val);
            return;
        }
        match arena.nodes[at].parent {
            Some(p) => {
                assert(linked(arena@, at as int));
                match Self::try_replace(arena, p, id.as_str(), val) {
                    Some(unused) => Self::set_local(arena, at, id, unused),
                    None => {},
                }
            },
            None => Self::set_local(arena, at, id, val),
        }
    }

    /// Overwrites the nearest binding of `id` on the way from `at` to the
    /// root and returns `None`; where no scope on that way binds `id`, changes
    /// nothing and hands `val` back.
    pub fn try_replace(arena: &mut ScopeArena<T>, at: usize, id: &str, val: T) -> (unused: Option<
        T,
    >)
        requires
            old(arena).wf(),
            at < old(arena)@.len(),
        ensures
            final(arena).wf(),
            final(arena)@.len() == old(arena)@.len(),
            match binder(old(arena)@, at as int, id@) {
                Some(n) => unused is None && final(arena)@ == bind(old(arena)@, n, id@, val),
                None => unused == Some(val) && final(arena)@ == old(arena)@,
            },
    {
        match arena.resolve(at, id) {
            Some(n) => {
                proof {
                    lemma_binder(arena@, at as int, id@);
                    lemma_bind_links(arena@, n as int, id@, val);
                }
                let unused = arena.nodes[n].data.replace(id, val);
                assert(arena@ =~= bind(old(arena)@, n as int, id@, val));
                unused
            },
            None => Some(val),
        }
    }

    /// Applies `f`, in place, to the value of the nearest binding of `id` on
    /// the way from `at` to the root, and returns what `f` returned; where no
    /// scope on that way binds `id`, changes nothing and returns `None`.
    pub fn update<A, F: Fn(&mut T) -> A>(
        arena: &mut ScopeArena<T>,
        at: usize,
        id: &str,
        f: F,
    ) -> (out: Option<A>)
        requires
            old(arena).wf(),
            at < old(arena)@.len(),
            forall|x: &mut T|
                lookup(old(arena)@, at as int, id@) == Some(*x) ==> call_requires(f, (x,)),
        ensures
            final(arena).wf(),
            final(arena)@.len() == old(arena)@.len(),
            match binder(old(arena)@, at as int, id@) {
                Some(n) => out is Some && exists|x: &mut T|
                    lookup(old(arena)@, at as int, id@) == Some(*x) && call_ensures(
                        f,
                        (x,),
                        out.unwrap(),
                    ) && final(arena)@ == bind(old(arena)@, n, id@, *final(x)) && lookup(
                        final(arena)@,
                        at as int,
                        id@,
                    ) == Some(*final(x)),
                None => out is None && final(arena)@ == old(arena)@,
            },
    {
        match arena.resolve(at, id) {
            Some(n) => {
                proof {
                    lemma_binder(arena@, at as int, id@);
                }
                let out = arena.nodes[n].data.update(id, f);
                proof {
                    let after = arena@[n as int].bindings[id@];
                    lemma_bind_links(old(arena)@, n as int, id@, after);
                    lemma_rebinding_read_back(old(arena)@, at as int, id@, after);
                    assert(arena@ =~= bind(old(arena)@, n as int, id@, after));
                }
                out
            },
            None => None,
        }
    }
}

impl<T: Clone> Scope<T> {
    /// Lexical lookup from scope `at`: a copy of the value of the nearest
    /// binding of `id` on the way from `at` to the root, if there is one.
    pub fn get(arena: &ScopeArena<T>, at: usize, id: &str) -> (found: Option<T>)
        requires
            arena.wf(),
            at < arena@.len(),
        ensures
            match lookup(arena@, at as int, id@) {
                Some(val) => found is Some && cloned(val, found.unwrap()),
                None => found is None,
            },
    {
        match arena.resolve(at, id) {
            Some(n) => {
                proof {
                    lemma_binder(arena@, at as int, id@);
                }
                match arena.nodes[n].data.get(id) {
                    Some(val) => Some(val.clone()),
                    None => None,
                }
            },
            None => None,
        }
    }
}

/// A handle to one scope of an arena.  Handles are plain values: copying one
/// gives a second name for the same scope.  Its view is the position of the
/// scope in the arena that made the handle; it is meant for that arena, and
/// every operation asks that it names a scope of the arena it is given.
pub struct PScope<T> {
    at: usize,
    owner: PhantomData<T>,
}

impl<T> View for PScope<T> {
    type V = int;

    closed spec fn view(&self) -> int {
        self.at as int
    }
}

impl<T> Clone for PScope<T> {
    fn clone(&self) -> (copy: Self)
        ensures
            copy == *self,
    {
        PScope { at: self.at, owner: PhantomData }
    }
}

impl<T> Copy for PScope<T> {}

impl<T> PScope<T> {
    /// Creates the root of a new tree in `arena` and returns a handle to it.
    pub fn new(arena: &mut ScopeArena<T>) -> (scope: Self)
        requires
            old(arena).wf(),
        ensures
            final(arena).wf(),
            final(arena)@ == old(arena)@.push(fresh_root()),
            scope@ == old(arena)@.len(),
    {
        let at = arena.nodes.len();
        arena.nodes.push(Scope::new());
        proof {
            lemma_push_root_links(old(arena)@);
            assert(arena@ =~= old(arena)@.push(fresh_root()));
        }
        PScope { at, owner: PhantomData }
    }

    /// The position of this scope in its arena.
    pub fn index(&self) -> (at: usize)
        ensures
            at == self@,
    {
        self.at
    }

    /// Binds `id` to `val` in this scope itself, whatever its ancestors bind.
    /// The binding shadows those of its ancestors: `val` is read from this
    /// scope and from each of its descendants that no nearer binding shadows.
    pub fn set_local(&self, arena: &mut ScopeArena<T>, id: String, val: T)
        requires
            old(arena).wf(),
            self@ < old(arena)@.len(),
        ensures
            final(arena).wf(),
            final(arena)@.len() == old(arena)@.len(),
            final(arena)@ == bind(old(arena)@, self@, id@, val),
            lookup(final(arena)@, self@, id@) == Some(val),
            forall|from: int|
                unshadowed(old(arena)@, from, self@, id@) ==> #[trigger] lookup(
                    final(arena)@,
                    from,
                    id@,
                ) == Some(val),
    {
        Scope::set_local(arena, self.at, id, val)
    }

    /// Binds `id` to `val` in the root of the tree that this scope belongs to.
    /// The binding is read from every scope of that tree, but for those that a
    /// binding of `id` below the root shadows.
    pub fn set_global(&self, arena: &mut ScopeArena<T>, id: String, val: T)
        requires
            old(arena).wf(),
            self@ < old(arena)@.len(),
        ensures
            final(arena).wf(),
            final(arena)@.len() == old(arena)@.len(),
            final(arena)@ == bind(old(arena)@, root_of(old(arena)@, self@), id@, val),
            forall|from: int|
                0 <= from < old(arena)@.len() && same_tree(old(arena)@, from, self@)
                    && unbound_below(old(arena)@, from, root_of(old(arena)@, self@), id@)
                    ==> #[trigger] lookup(final(arena)@, from, id@) == Some(val),
    {
        Scope::set_global(arena, self.at, id, val)
    }

    /// Lexical assignment: overwrites the nearest binding of `id` on the way
    /// from this scope to the root, where it stands; where no scope on that
    /// way binds `id`, binds it in this scope itself.  Either way this scope
    /// reads `val` back, and where the write went to an ancestor, this scope
    /// is left as it was.
    pub fn set(&self, arena: &mut ScopeArena<T>, id: String, val: T)
        requires
            old(arena).wf(),
            self@ < old(arena)@.len(),
        ensures
            final(arena).wf(),
            final(arena)@.len() == old(arena)@.len(),
            final(arena)@ == bind(old(arena)@, assign_target(old(arena)@, self@, id@), id@, val),
            lookup(final(arena)@, self@, id@) == Some(val),
            assign_target(old(arena)@, self@, id@) != self@ ==> final(arena)@[self@] == old(
                arena,
            )@[self@],
    {
        Scope::set(arena, self.at, id, val)
    }

    /// Overwrites the nearest binding of `id` on the way from this scope to
    /// the root and returns `None`; where no scope on that way binds `id`,
    /// changes nothing and hands `val` back.
    pub fn try_replace(&self, arena: &mut ScopeArena<T>, id: &str, val: T) -> (unused: Option<T>)
        requires
            old(arena).wf(),
            self@ < old(arena)@.len(),
        ensures
            final(arena).wf(),
            final(arena)@.len() == old(arena)@.len(),
            match binder(old(arena)@, self@, id@) {
                Some(n) => unused is None && final(arena)@ == bind(old(arena)@, n, id@, val),
                None => unused == Some(val) && final(arena)@ == old(arena)@,
            },
    {
        Scope::try_replace(arena, self.at, id, val)
    }

    /// Applies `f`, in place, to the value of the nearest binding of `id` on
    /// the way from this scope to the root, and returns what `f` returned;
    /// where no scope on that way binds `id`, changes nothing and returns
    /// `None`.
    pub fn update<A, F: Fn(&mut T) -> A>(&self, arena: &mut ScopeArena<T>, id: &str, f: F) -> (out:
        Option<A>)
        requires
            old(arena).wf(),
            self@ < old(arena)@.len(),
            forall|x: &mut T| lookup(old(arena)@, self@, id@) == Some(*x) ==> call_requires(f, (x,)),
        ensures
            final(arena).wf(),
            final(arena)@.len() == old(arena)@.len(),
            match binder(old(arena)@, self@, id@) {
                Some(n) => out is Some && exists|x: &mut T|
                    lookup(old(arena)@, self@, id@) == Some(*x) && call_ensures(
                        f,
                        (x,),
                        out.unwrap(),
                    ) && final(arena)@ == bind(old(arena)@, n, id@, *final(x)) && lookup(
                        final(arena)@,
                        self@,
                        id@,
                    ) == Some(*final(x)),
                None => out is None && final(arena)@ == old(arena)@,
            },
    {
        Scope::update(arena, self.at, id, f)
    }

    /// Creates a scope below this one and returns a handle to it.  The child
    /// binds nothing of its own and belongs to the tree of this scope.
    pub fn child(&self, arena: &mut ScopeArena<T>) -> (scope: Self)
        requires
            old(arena).wf(),
            self@ < old(arena)@.len(),
        ensures
            final(arena).wf(),
            final(arena)@ == old(arena)@.push(fresh_child(old(arena)@, self@)),
            scope@ == old(arena)@.len(),
    {
        let root = match arena.nodes[self.at].root {
            Some(top) => Some(top),
            None => Some(self.at),
        };
        let parent = Some(self.at);
        let at = arena.nodes.len();
        arena.nodes.push(Scope { data: Bindings::new(), parent, root });
        proof {
            lemma_push_child_links(old(arena)@, self@);
            assert(arena@ =~= old(arena)@.push(fresh_child(old(arena)@, self@)));
        }
        PScope { at, owner: PhantomData }
    }
}

impl<T: Clone> PScope<T> {
    /// Lexical lookup: a copy of the value of the nearest binding of `id` on
    /// the way from this scope to the root, if there is one.
    pub fn get(&self, arena: &ScopeArena<T>, id: &str) -> (found: Option<T>)
        requires
            arena.wf(),
            self@ < arena@.len(),
        ensures
            match lookup(arena@, self@, id@) {
                Some(val) => found is Some && cloned(val, found.unwrap()),
                None => found is None,
            },
    {
        Scope::get(arena, self.at, id)
    }
}

} // verus!
