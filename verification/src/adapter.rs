use vstd::prelude::*;
use crate::dag::linked_graph::LinkedGraph;

verus! {

/// Registry of native functions: functions that the adapter hands back
/// unchanged. Functions are known by their address.
///
/// The default DAG rules are registered the first time the registry is
/// consulted or extended, so that a rule removed before that moment comes back.
pub struct AdaptRegistry {
    natives: Vec<usize>,
    default_rules: Vec<usize>,
    seeded: bool,
}

/// Model of an [`AdaptRegistry`].
pub struct RegistryModel {
    /// The addresses registered so far.
    pub natives: Set<usize>,
    /// The addresses of the default DAG rules.
    pub default_rules: Set<usize>,
    /// Whether the default rules have been registered.
    pub seeded: bool,
}

impl RegistryModel {
    /// The registered addresses once the default rules are in.
    pub open spec fn after_seeding(self) -> Set<usize> {
        if self.seeded {
            self.natives
        } else {
            self.natives.union(self.default_rules)
        }
    }
}

impl View for AdaptRegistry {
    type V = RegistryModel;

    closed spec fn view(&self) -> RegistryModel {
        RegistryModel {
            natives: self.natives@.to_set(),
            default_rules: self.default_rules@.to_set(),
            seeded: self.seeded,
        }
    }
}

/// Adds `x` to `v` unless it is there already.
fn insert_unique(v: &mut Vec<usize>, x: usize)
    requires
        old(v)@.no_duplicates(),
    ensures
        final(v)@.no_duplicates(),
        final(v)@.to_set() == old(v)@.to_set().insert(x),
{
    let mut i: usize = 0;
    while i < v.len()
        invariant
            v@ == old(v)@,
            v@.no_duplicates(),
            i <= v@.len(),
            forall|k: int| 0 <= k < i ==> v@[k] != x,
        decreases v@.len() - i,
    {
        if v[i] == x {
            proof {
                assert(v@.to_set().insert(x) =~= v@.to_set());
            }
            return;
        }
        i = i + 1;
    }
    let ghost before = v@;
    v.push(x);
    proof {
        assert(v@.to_set() =~= before.to_set().insert(x)) by {
            assert forall|y: usize| v@.to_set().contains(y) implies before.to_set().insert(x).contains(y) by {
                let k = choose|k: int| 0 <= k < v@.len() && v@[k] == y;
                if k < before.len() {
                    assert(before[k] == y);
                }
            }
            assert forall|y: usize| before.to_set().insert(x).contains(y) implies v@.to_set().contains(y) by {
                if y == x {
                    assert(v@[before.len() as int] == x);
                } else {
                    let k = choose|k: int| 0 <= k < before.len() && before[k] == y;
                    assert(v@[k] == y);
                }
            }
        }
    }
}

/// Removes `x` from `v` where it is there.
fn remove_value(v: &mut Vec<usize>, x: usize)
    requires
        old(v)@.no_duplicates(),
    ensures
        final(v)@.no_duplicates(),
        final(v)@.to_set() == old(v)@.to_set().remove(x),
{
    let mut i: usize = 0;
    while i < v.len()
        invariant
            v@ == old(v)@,
            v@.no_duplicates(),
            i <= v@.len(),
            forall|k: int| 0 <= k < i ==> v@[k] != x,
        decreases v@.len() - i,
    {
        if v[i] == x {
            let ghost before = v@;
            v.remove(i);
            proof {
                assert(v@ =~= before.subrange(0, i as int) + before.subrange(i + 1, before.len() as int));
                assert forall|a: int, b: int| 0 <= a < b < v@.len() implies v@[a] != v@[b] by {
                    let pa = if a < i { a } else { a + 1 };
                    let pb = if b < i { b } else { b + 1 };
                    assert(v@[a] == before[pa] && v@[b] == before[pb]);
                }
                assert(v@.to_set() =~= before.to_set().remove(x)) by {
                    assert forall|y: usize| v@.to_set().contains(y) implies before.to_set().remove(x).contains(y) by {
                        let k = choose|k: int| 0 <= k < v@.len() && v@[k] == y;
                        let pk = if k < i { k } else { k + 1 };
                        assert(before[pk] == y);
                        assert(pk != i);
                    }
                    assert forall|y: usize| before.to_set().remove(x).contains(y) implies v@.to_set().contains(y) by {
                        let k = choose|k: int| 0 <= k < before.len() && before[k] == y;
                        assert(k != i);
                        if k < i {
                            assert(v@[k] == y);
                        } else {
                            assert(v@[k - 1] == y);
                        }
                    }
                }
            }
            return;
        }
        i = i + 1;
    }
    proof {
        assert(v@.to_set() =~= v@.to_set().remove(x)) by {
            assert forall|y: usize| v@.to_set().contains(y) implies y != x by {
                let k = choose|k: int| 0 <= k < v@.len() && v@[k] == y;
            }
        }
    }
}

/// Whether `v` holds `x`.
fn vec_has(v: &Vec<usize>, x: usize) -> (r: bool)
    ensures
        r == v@.to_set().contains(x),
{
    let mut i: usize = 0;
    while i < v.len()
        invariant
            i <= v@.len(),
            forall|k: int| 0 <= k < i ==> v@[k] != x,
        decreases v@.len() - i,
    {
        if v[i] == x {
            proof {
                assert(v@.to_set().contains(x));
            }
            return true;
        }
        i = i + 1;
    }
    proof {
        if v@.to_set().contains(x) {
            let k = choose|k: int| 0 <= k < v@.len() && v@[k] == x;
        }
    }
    false
}

impl AdaptRegistry {
    /// A registry whose default rules live at the given addresses.
    pub fn new(default_rules: Vec<usize>) -> (r: Self)
        ensures
            r@.natives == Set::<usize>::empty(),
            r@.default_rules == default_rules@.to_set(),
            !r@.seeded,
    {
        let mut rules: Vec<usize> = Vec::new();
        let mut i: usize = 0;
        while i < default_rules.len()
            invariant
                i <= default_rules@.len(),
                rules@.no_duplicates(),
                rules@.to_set() == default_rules@.take(i as int).to_set(),
            decreases default_rules@.len() - i,
        {
            let ghost before = rules@;
            insert_unique(&mut rules, default_rules[i]);
            proof {
                assert(default_rules@.take(i + 1) =~= default_rules@.take(i as int).push(default_rules@[i as int]));
                assert(default_rules@.take(i as int).push(default_rules@[i as int]).to_set() =~= default_rules@.take(
                    i as int,
                ).to_set().insert(default_rules@[i as int])) by {
                    let t = default_rules@.take(i as int);
                    let x = default_rules@[i as int];
                    assert forall|y: usize| t.push(x).to_set().contains(y) implies t.to_set().insert(x).contains(y) by {
                        let k = choose|k: int| 0 <= k < t.push(x).len() && t.push(x)[k] == y;
                        if k < t.len() {
                            assert(t[k] == y);
                        }
                    }
                    assert forall|y: usize| t.to_set().insert(x).contains(y) implies t.push(x).to_set().contains(y) by {
                        if y == x {
                            assert(t.push(x)[t.len() as int] == x);
                        } else {
                            let k = choose|k: int| 0 <= k < t.len() && t[k] == y;
                            assert(t.push(x)[k] == y);
                        }
                    }
                }
            }
            i = i + 1;
        }
        proof {
            assert(default_rules@.take(default_rules@.len() as int) =~= default_rules@);
            assert(Seq::<usize>::empty().to_set() =~= Set::<usize>::empty());
        }
        AdaptRegistry { natives: Vec::new(), default_rules: rules, seeded: false }
    }

    /// The registry is internally consistent.
    pub closed spec fn wf(&self) -> bool {
        self.natives@.no_duplicates() && self.default_rules@.no_duplicates()
    }

    /// Registers the default DAG rules, once.
    pub fn ensure_native_dag_rules(&mut self)
        requires
            old(self).wf(),
        ensures
            final(self).wf(),
            final(self)@.natives == old(self)@.after_seeding(),
            final(self)@.default_rules == old(self)@.default_rules,
            final(self)@.seeded,
    {
        if self.seeded {
            return;
        }
        let mut i: usize = 0;
        while i < self.default_rules.len()
            invariant
                !self.seeded,
                i <= self.default_rules@.len(),
                self.natives@.no_duplicates(),
                self.default_rules@.no_duplicates(),
                self.default_rules@ == old(self).default_rules@,
                self.natives@.to_set() == old(self).natives@.to_set().union(self.default_rules@.take(i as int).to_set()),
            decreases self.default_rules@.len() - i,
        {
            let x = self.default_rules[i];
            insert_unique(&mut self.natives, x);
            proof {
                let t = self.default_rules@.take(i as int);
                assert(self.default_rules@.take(i + 1) =~= t.push(x));
                assert(old(self).natives@.to_set().union(t.push(x).to_set()) =~= old(self).natives@.to_set().union(
                    t.to_set(),
                ).insert(x)) by {
                    assert forall|y: usize| t.push(x).to_set().contains(y) implies t.to_set().insert(x).contains(y) by {
                        let k = choose|k: int| 0 <= k < t.push(x).len() && t.push(x)[k] == y;
                        if k < t.len() {
                            assert(t[k] == y);
                        }
                    }
                    assert forall|y: usize| t.to_set().contains(y) implies t.push(x).to_set().contains(y) by {
                        let k = choose|k: int| 0 <= k < t.len() && t[k] == y;
                        assert(t.push(x)[k] == y);
                    }
                    assert(t.push(x)[t.len() as int] == x);
                }
            }
            i = i + 1;
        }
        proof {
            assert(self.default_rules@.take(self.default_rules@.len() as int) =~= self.default_rules@);
        }
        self.seeded = true;
    }

    /// Registers the function at `func_ptr` as native.
    pub fn register_native(&mut self, func_ptr: usize)
        requires
            old(self).wf(),
        ensures
            final(self).wf(),
            final(self)@.natives == old(self)@.after_seeding().insert(func_ptr),
            final(self)@.default_rules == old(self)@.default_rules,
            final(self)@.seeded,
    {
        self.ensure_native_dag_rules();
        insert_unique(&mut self.natives, func_ptr);
    }

    /// Removes the function at `func_ptr` from the native functions.
    pub fn unregister_native(&mut self, func_ptr: usize)
        requires
            old(self).wf(),
        ensures
            final(self).wf(),
            final(self)@.natives == old(self)@.natives.remove(func_ptr),
            final(self)@.default_rules == old(self)@.default_rules,
            final(self)@.seeded == old(self)@.seeded,
    {
        remove_value(&mut self.natives, func_ptr);
    }

    /// Whether the function at `func_ptr` is native.
    pub fn is_native(&mut self, func_ptr: usize) -> (r: bool)
        requires
            old(self).wf(),
        ensures
            final(self).wf(),
            r == old(self)@.after_seeding().contains(func_ptr),
            final(self)@.natives == old(self)@.after_seeding(),
            final(self)@.default_rules == old(self)@.default_rules,
            final(self)@.seeded,
    {
        self.ensure_native_dag_rules();
        vec_has(&self.natives, func_ptr)
    }
}

/// Registers the function at address `func_ptr` as native and hands the
/// address back.
pub fn register_native(registry: &mut AdaptRegistry, func_ptr: usize) -> (r: usize)
    requires
        old(registry).wf(),
    ensures
        r == func_ptr,
        final(registry).wf(),
        final(registry)@.natives == old(registry)@.after_seeding().insert(func_ptr),
        final(registry)@.default_rules == old(registry)@.default_rules,
        final(registry)@.seeded,
{
    registry.register_native(func_ptr);
    func_ptr
}

/// Native functions are handed back unchanged; the default rules are
/// registered on the way.
pub fn adapt_native_fn<F>(registry: &mut AdaptRegistry, fun: F) -> (r: F)
    requires
        old(registry).wf(),
    ensures
        r == fun,
        final(registry).wf(),
        final(registry)@.natives == old(registry)@.after_seeding(),
        final(registry)@.default_rules == old(registry)@.default_rules,
        final(registry)@.seeded,
{
    registry.ensure_native_dag_rules();
    fun
}

/// The adapter for graphs that need no conversion: graphs and functions pass
/// through unchanged.
#[derive(Clone, Copy, Debug, Default)]
pub struct DirectAdapter;

impl DirectAdapter {
    /// The graph, as the optimiser works on it.
    pub fn adapt(&self, graph: LinkedGraph) -> (r: LinkedGraph)
        ensures
            r@ == graph@,
    {
        graph
    }

    /// Each graph, as the optimiser works on it, in the same order.
    pub fn adapt_many(&self, graphs: Vec<LinkedGraph>) -> (r: Vec<LinkedGraph>)
        ensures
            r@.len() == graphs@.len(),
            forall|i: int| 0 <= i < r@.len() ==> (#[trigger] r@[i])@ == graphs@[i]@,
    {
        graphs
    }

    /// The graph, as the caller works on it.
    pub fn restore(&self, graph: LinkedGraph) -> (r: LinkedGraph)
        ensures
            r@ == graph@,
    {
        graph
    }

    /// A function, as the optimiser calls it.
    pub fn adapt_func<F>(&self, registry: &mut AdaptRegistry, fun: F) -> (r: F)
        requires
            old(registry).wf(),
        ensures
            r == fun,
            final(registry).wf(),
            final(registry)@.natives == old(registry)@.after_seeding(),
            final(registry)@.default_rules == old(registry)@.default_rules,
            final(registry)@.seeded,
    {
        adapt_native_fn(registry, fun)
    }

    /// A function, as the caller calls it.
    pub fn restore_func<F>(&self, fun: F) -> (r: F)
        ensures
            r == fun,
    {
        fun
    }
}

/// A function just registered is native.
pub proof fn law_registered_is_native(m: RegistryModel, func_ptr: usize)
    ensures
        (RegistryModel { natives: m.after_seeding().insert(func_ptr), default_rules: m.default_rules, seeded: true }).after_seeding().contains(
            func_ptr,
        ),
{
}

/// Once the default rules are in, a function just unregistered is not
/// native.
pub proof fn law_unregistered_is_not_native(m: RegistryModel, func_ptr: usize)
    requires
        m.seeded,
    ensures
        !(RegistryModel { natives: m.natives.remove(func_ptr), default_rules: m.default_rules, seeded: m.seeded }).after_seeding().contains(
            func_ptr,
        ),
{
}

} // verus!
