//! The decisions of the hook runtime: when an effect runs, the table of
//! event handlers and which handler an id names, and the tree rendered last
//! with what a render sends to the page.
use vstd::prelude::*;
use crate::vdom::{VNode, Patch, PatchM, Node, patch_models};
use crate::diff::{reconcile, try_diff, copy_node};

verus! {

/// The dependency values each effect slot last rendered with.
pub struct EffectLog {
    deps: Vec<Option<u64>>,
}

/// Whether an effect whose slot last held `prev` runs with `deps`: always
/// without dependencies, else when they differ from the last ones.
pub open spec fn effect_runs(prev: Option<u64>, deps: Option<u64>) -> bool {
    match deps {
        None => true,
        Some(d) => prev != Some(d),
    }
}

impl EffectLog {
    pub closed spec fn slots(&self) -> Seq<Option<u64>> {
        self.deps@
    }

    pub fn new() -> (r: EffectLog)
        ensures
            r.slots() == Seq::<Option<u64>>::empty(),
    {
        EffectLog { deps: Vec::new() }
    }

    /// Records the `idx`-th effect of a render with `deps` and says whether
    /// it runs: a new slot (the first render) always runs; an existing one
    /// runs as [`effect_runs`] says. Effects are declared in the same order
    /// every render, so `idx` is at most the number of slots.
    pub fn record(&mut self, idx: usize, deps: Option<u64>) -> (run: bool)
        requires
            idx <= old(self).slots().len(),
        ensures
            idx == old(self).slots().len() ==> run && final(self).slots() == old(self).slots().push(deps),
            idx < old(self).slots().len() ==> run == effect_runs(old(self).slots()[idx as int], deps)
                && final(self).slots() == old(self).slots().update(idx as int, deps),
    {
        if idx == self.deps.len() {
            self.deps.push(deps);
            return true;
        }
        let prev = self.deps[idx];
        let run = match deps {
            None => true,
            Some(d) => match prev {
                Some(p) => p != d,
                None => true,
            },
        };
        self.deps.set(idx, deps);
        run
    }
}

/// An effect re-rendered with the dependencies it last ran with does not
/// run again.
pub proof fn unchanged_deps_do_not_rerun(slots: Seq<Option<u64>>, idx: int, d: u64)
    requires
        0 <= idx < slots.len(),
    ensures
        !effect_runs(slots.update(idx, Some(d))[idx], Some(d)),
{
}

/// The handler slot an event id names, if one is registered.
pub fn handler_slot(n_handlers: usize, handler_id: u64) -> (r: Option<usize>)
    ensures
        handler_id < n_handlers ==> r == Some(handler_id as usize),
        handler_id >= n_handlers ==> r is None,
{
    if handler_id < n_handlers as u64 {
        Some(handler_id as usize)
    } else {
        None
    }
}

/// A component's event handlers, by id. A handler's id is the position at
/// which a render registers it; renders register their handlers in the
/// same order, so an id names the same handler from render to render, and
/// each render's closure replaces the one before it.
pub struct HandlerTable<T> {
    handlers: Vec<T>,
}

impl<T> HandlerTable<T> {
    /// The handlers held, by id.
    pub closed spec fn entries(&self) -> Seq<T> {
        self.handlers@
    }

    pub fn new() -> (r: HandlerTable<T>)
        ensures
            r.entries() == Seq::<T>::empty(),
    {
        HandlerTable { handlers: Vec::new() }
    }

    /// Registers `h` as the `idx`-th handler of a render and returns its
    /// id, `idx`: a new id on the first render that reaches it, else the
    /// id whose closure `h` replaces.
    pub fn register(&mut self, idx: usize, h: T) -> (id: u64)
        requires
            idx <= old(self).entries().len(),
        ensures
            id == idx,
            final(self).entries() == if idx == old(self).entries().len() {
                old(self).entries().push(h)
            } else {
                old(self).entries().update(idx as int, h)
            },
    {
        if idx == self.handlers.len() {
            self.handlers.push(h);
        } else {
            self.handlers.set(idx, h);
        }
        idx as u64
    }

    /// The handler an event id names, if one is registered.
    pub fn get(&self, id: u64) -> (r: Option<&T>)
        ensures
            match r {
                Some(x) => id < self.entries().len() && *x == self.entries()[id as int],
                None => id >= self.entries().len(),
            },
    {
        match handler_slot(self.handlers.len(), id) {
            Some(i) => Some(&self.handlers[i]),
            None => None,
        }
    }
}

/// What a render sends: the whole tree as one replacement of the root the
/// first time, afterwards the patches from the previous tree (`None` where
/// reconciliation cannot proceed).
pub open spec fn render_patches_spec(last: Option<Node>, new: Node) -> Option<Seq<PatchM>> {
    match last {
        None => Some(seq![PatchM::Replace { path: Seq::empty(), node: new }]),
        Some(old) => reconcile(old, new),
    }
}

pub fn render_patches(last: Option<&VNode>, new: &VNode) -> (r: Option<Vec<Patch>>)
    ensures
        match render_patches_spec(
            match last {
                Some(l) => Some(l.model()),
                None => None,
            },
            new.model(),
        ) {
            Some(ps) => r matches Some(v) && patch_models(v@) == ps,
            None => r is None,
        },
{
    match last {
        None => {
            let mut v: Vec<Patch> = Vec::new();
            v.push(Patch::Replace { path: Vec::new(), node: copy_node(new) });
            assert(patch_models(v@) =~= seq![PatchM::Replace { path: Seq::empty(), node: new.model() }]);
            Some(v)
        },
        Some(old) => try_diff(old, new),
    }
}

/// The tree a component rendered last, which the next render's patches
/// start from.
pub struct RenderedTree {
    last: Option<VNode>,
}

impl RenderedTree {
    /// The model of the tree rendered last, if any.
    pub closed spec fn last_tree(&self) -> Option<Node> {
        match self.last {
            Some(t) => Some(t.model()),
            None => None,
        }
    }

    pub fn new() -> (r: RenderedTree)
        ensures
            r.last_tree() is None,
    {
        RenderedTree { last: None }
    }

    /// The tree rendered last.
    pub fn tree(&self) -> (r: Option<&VNode>)
        ensures
            match r {
                Some(t) => self.last_tree() == Some(t.model()),
                None => self.last_tree() is None,
            },
    {
        match &self.last {
            Some(t) => Some(t),
            None => None,
        }
    }

    /// Takes `new` as the rendered tree and returns what the page needs to
    /// show it: the whole tree the first time, then the patches from the
    /// tree before. Where reconciliation cannot proceed nothing changes and
    /// `None` comes back.
    pub fn commit(&mut self, new: VNode) -> (r: Option<Vec<Patch>>)
        ensures
            match render_patches_spec(old(self).last_tree(), new.model()) {
                Some(ps) => r matches Some(v) && patch_models(v@) == ps && final(self).last_tree() == Some(
                    new.model(),
                ),
                None => r is None && final(self).last_tree() == old(self).last_tree(),
            },
    {
        let patches = match &self.last {
            Some(l) => render_patches(Some(l), &new),
            None => render_patches(None, &new),
        };
        if patches.is_some() {
            self.last = Some(new);
        }
        patches
    }
}

} // verus!
