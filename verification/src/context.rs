//! The lazy store: computed-on-demand values over the slot store.
//!
//! Each key is registered with the list of keys its initializer reads.  On
//! first access the store evaluates those dependencies depth-first, hands
//! their values to the user's program, and memoizes the result; a memoized
//! value is never recomputed.  A key that is reached again while its own
//! computation is still running is a cycle, reported as
//! `CircularDependency` rather than recursed into: the in-progress set
//! makes every evaluation terminate.
//!
//! Which keys an evaluation memoizes, and which error it reports, depend
//! only on the registry, the memo set and the in-progress set; the values
//! themselves come from the user's program.  `eval_key` states that control
//! structure, and the store's contracts are exact with respect to it.

use crate::hashmap::TypeContainer;
use crate::StoreError;
use vstd::prelude::*;
use vstd::seq_lib::group_seq_properties;
use vstd::set_lib::lemma_len_subset;

verus! {

broadcast use group_seq_properties;

/// Failures of the lazy store.
#[derive(Clone, Copy, Debug, PartialEq, Eq, Structural)]
pub enum ContextError {
    /// The key's initializer, directly or through its dependencies, reached
    /// the key's own still-running computation.
    CircularDependency,
    /// The key, or one of its transitive dependencies, was never
    /// registered.
    NotRegistered,
}

/// A data plugin program: computes a key's value from the values of the
/// key's registered dependencies, given in registration order.  Implemented
/// by the store's users; the store promises nothing about what it returns,
/// only that it runs at most once per key.
pub trait DataPlugin<V> {
    /// The value of `key`, from the values of its dependencies.
    fn init(&self, key: u64, dep_values: &Vec<&V>) -> V;
}

/// What evaluating one key does to the set of memoized keys, or how it
/// fails.
pub enum Outcome {
    /// Evaluation succeeds; `done` is the memo set afterwards.
    Done { done: Set<u64> },
    /// The key, or a transitive dependency, was already being computed.
    Cycle,
    /// The key, or a transitive dependency, is not registered.
    Unregistered,
}

/// The control structure of evaluating `key`: a memoized key is left as it
/// is; a key on the in-progress stack is a cycle; an unregistered key is an
/// error; otherwise the key's dependencies are evaluated in order with the
/// key pushed onto the stack, and the key itself is memoized last.
pub open spec fn eval_key(reg: Map<u64, Seq<u64>>, done: Set<u64>, stack: Set<u64>, key: u64) -> Outcome
    decreases reg.dom().len() - stack.len(), 1nat, 0nat,
        when reg.dom().finite() && stack.finite() && stack.subset_of(reg.dom())
{
    if done.contains(key) {
        Outcome::Done { done }
    } else if stack.contains(key) {
        Outcome::Cycle
    } else if !reg.dom().contains(key) {
        Outcome::Unregistered
    } else {
        proof {
            lemma_len_subset(stack, reg.dom());
            vstd::set::axiom_set_insert_len(stack, key);
            lemma_len_subset(stack.insert(key), reg.dom());
        }
        match eval_deps(reg, done, stack.insert(key), reg[key]) {
            Outcome::Done { done: d } => Outcome::Done { done: d.insert(key) },
            o => o,
        }
    }
}

/// Dependencies are evaluated left to right, each from the memo set the
/// previous ones produced; the first failure wins.
pub open spec fn eval_deps(
    reg: Map<u64, Seq<u64>>,
    done: Set<u64>,
    stack: Set<u64>,
    deps: Seq<u64>,
) -> Outcome
    decreases reg.dom().len() - stack.len(), 2nat, deps.len(),
        when reg.dom().finite() && stack.finite() && stack.subset_of(reg.dom())
{
    if deps.len() == 0 {
        Outcome::Done { done }
    } else {
        match eval_key(reg, done, stack, deps[0]) {
            Outcome::Done { done: d } => eval_deps(reg, d, stack, deps.drop_first()),
            o => o,
        }
    }
}

/// A successful evaluation only ever adds to the memo set, and it never
/// memoizes a key that is still on the in-progress stack.
proof fn lemma_eval_key_frame(reg: Map<u64, Seq<u64>>, done: Set<u64>, stack: Set<u64>, key: u64)
    requires
        reg.dom().finite(),
        stack.finite(),
        stack.subset_of(reg.dom()),
    ensures
        match eval_key(reg, done, stack, key) {
            Outcome::Done { done: d } => done.subset_of(d) && forall|x: u64|
                stack.contains(x) ==> (#[trigger] d.contains(x)) == done.contains(x),
            _ => true,
        },
    decreases reg.dom().len() - stack.len(), 1nat, 0nat,
{
    if done.contains(key) || stack.contains(key) || !reg.dom().contains(key) {
    } else {
        lemma_len_subset(stack, reg.dom());
        vstd::set::axiom_set_insert_len(stack, key);
        lemma_len_subset(stack.insert(key), reg.dom());
        lemma_eval_deps_frame(reg, done, stack.insert(key), reg[key]);
    }
}

/// The dependency walk, likewise, only adds to the memo set.
proof fn lemma_eval_deps_frame(
    reg: Map<u64, Seq<u64>>,
    done: Set<u64>,
    stack: Set<u64>,
    deps: Seq<u64>,
)
    requires
        reg.dom().finite(),
        stack.finite(),
        stack.subset_of(reg.dom()),
    ensures
        match eval_deps(reg, done, stack, deps) {
            Outcome::Done { done: d } => done.subset_of(d) && forall|x: u64|
                stack.contains(x) ==> (#[trigger] d.contains(x)) == done.contains(x),
            _ => true,
        },
    decreases reg.dom().len() - stack.len(), 2nat, deps.len(),
{
    if deps.len() == 0 {
    } else {
        lemma_eval_key_frame(reg, done, stack, deps[0]);
        match eval_key(reg, done, stack, deps[0]) {
            Outcome::Done { done: d } => {
                lemma_eval_deps_frame(reg, d, stack, deps.drop_first());
            },
            _ => {},
        }
    }
}

/// Memoization: evaluating a key that is already memoized is a no-op, with
/// the memo set handed back untouched — the initializer can only ever run
/// on a key's first evaluation.
pub proof fn lemma_eval_key_memoized(
    reg: Map<u64, Seq<u64>>,
    done: Set<u64>,
    stack: Set<u64>,
    key: u64,
)
    requires
        reg.dom().finite(),
        stack.finite(),
        stack.subset_of(reg.dom()),
        done.contains(key),
    ensures
        eval_key(reg, done, stack, key) == (Outcome::Done { done }),
{
}

/// A dependency walk that must pass through a key that is on the
/// in-progress stack and not memoized cannot succeed.
proof fn lemma_eval_deps_reaches_stacked(
    reg: Map<u64, Seq<u64>>,
    done: Set<u64>,
    stack: Set<u64>,
    deps: Seq<u64>,
    x: u64,
)
    requires
        reg.dom().finite(),
        stack.finite(),
        stack.subset_of(reg.dom()),
        stack.contains(x),
        !done.contains(x),
        deps.contains(x),
    ensures
        !(eval_deps(reg, done, stack, deps) is Done),
        deps[0] == x ==> eval_deps(reg, done, stack, deps) == Outcome::Cycle,
    decreases deps.len(),
{
    let i = choose|i: int| 0 <= i < deps.len() && deps[i] == x;
    if deps[0] == x {
        assert(eval_key(reg, done, stack, x) == Outcome::Cycle);
    } else {
        match eval_key(reg, done, stack, deps[0]) {
            Outcome::Done { done: d } => {
                lemma_eval_key_frame(reg, done, stack, deps[0]);
                assert(!d.contains(x));
                assert(deps.drop_first()[i - 1] == x);
                lemma_eval_deps_reaches_stacked(reg, d, stack, deps.drop_first(), x);
            },
            _ => {},
        }
    }
}

/// Cycle detection: a key whose own dependency list names the key itself
/// can never evaluate successfully — and when that self-reference is the
/// first dependency, the failure is precisely a cycle.  Evaluation always
/// terminates either way; a cycle is reported, never recursed into.
pub proof fn lemma_self_dependency_cycles(reg: Map<u64, Seq<u64>>, done: Set<u64>, key: u64)
    requires
        reg.dom().finite(),
        reg.dom().contains(key),
        !done.contains(key),
        reg[key].contains(key),
    ensures
        !(eval_key(reg, done, Set::empty(), key) is Done),
        reg[key].len() > 0 && reg[key][0] == key ==> eval_key(reg, done, Set::empty(), key)
            == Outcome::Cycle,
{
    let stack1 = Set::<u64>::empty().insert(key);
    assert(stack1.subset_of(reg.dom()));
    lemma_eval_deps_reaches_stacked(reg, done, stack1, reg[key], key);
}

/// The lazy store: a registry of keys with their dependency lists, the
/// memoized data, and the in-progress stack that catches re-entrant
/// computation.
pub struct Context<V> {
    data: TypeContainer<V>,
    registry: TypeContainer<Vec<u64>>,
    in_progress: Vec<u64>,
}

impl<V> View for Context<V> {
    type V = Map<u64, V>;

    /// The memoized data: each computed key and its stored value.
    closed spec fn view(&self) -> Map<u64, V> {
        self.data@
    }
}

impl<V> Context<V> {
    /// The registered dependency lists: each registered key and the keys
    /// its initializer reads, in order.
    pub closed spec fn registry_view(&self) -> Map<u64, Seq<u64>> {
        self.registry@.map_values(|d: Vec<u64>| d@)
    }

    spec fn inv(&self) -> bool {
        &&& self.in_progress@.no_duplicates()
        &&& forall|i: int|
            0 <= i < self.in_progress@.len() ==> self.registry@.dom().contains(
                #[trigger] self.in_progress@[i],
            )
    }

    /// The store's invariant between public calls: nothing is mid-
    /// computation.
    pub closed spec fn wf(&self) -> bool {
        &&& self.inv()
        &&& self.in_progress@.len() == 0
    }

    proof fn lemma_registry_dom(&self)
        ensures
            self.registry_view().dom() =~= self.registry@.dom(),
            forall|k: u64|
                self.registry@.dom().contains(k) ==> #[trigger] self.registry_view()[k]
                    == self.registry@[k]@,
    {
    }

    /// A fresh store: nothing registered, nothing computed.
    pub fn new() -> (r: Context<V>)
        ensures
            r.wf(),
            r@ == Map::<u64, V>::empty(),
            r.registry_view() == Map::<u64, Seq<u64>>::empty(),
    {
        let r = Context {
            data: TypeContainer::new(),
            registry: TypeContainer::new(),
            in_progress: Vec::new(),
        };
        proof {
            assert(r.registry_view() =~= Map::<u64, Seq<u64>>::empty());
        }
        r
    }

    /// Registers `key` with the dependency list its initializer reads.  A
    /// key must be registered before its data is asked for; registering it
    /// twice fails with `KeyAlreadyPresent` and changes nothing.
    pub fn add_plugin_to_registry(&mut self, key: u64, deps: Vec<u64>) -> (r: Result<
        (),
        StoreError,
    >)
        requires
            old(self).wf(),
        ensures
            final(self).wf(),
            final(self)@ == old(self)@,
            match r {
                Ok(_) => {
                    &&& !old(self).registry_view().contains_key(key)
                    &&& final(self).registry_view() == old(self).registry_view().insert(
                        key,
                        deps@,
                    )
                },
                Err(e) => {
                    &&& e == StoreError::KeyAlreadyPresent
                    &&& old(self).registry_view().contains_key(key)
                    &&& final(self).registry_view() == old(self).registry_view()
                },
            },
    {
        let ghost pre = self.registry@;
        let ghost depsv = deps@;
        let r = self.registry.try_insert(key, deps);
        proof {
            match r {
                Ok(_) => {
                    assert(self.registry@.map_values(|d: Vec<u64>| d@) =~= pre.map_values(
                        |d: Vec<u64>| d@,
                    ).insert(key, depsv));
                },
                Err(_) => {
                    assert(self.registry@.map_values(|d: Vec<u64>| d@) =~= pre.map_values(
                        |d: Vec<u64>| d@,
                    ));
                },
            }
        }
        r
    }

    /// Whether `key` is on the in-progress stack.
    fn in_progress_contains(&self, key: u64) -> (r: bool)
        ensures
            r == self.in_progress@.contains(key),
    {
        let mut i: usize = 0;
        while i < self.in_progress.len()
            invariant
                i <= self.in_progress@.len(),
                forall|j: int| 0 <= j < i ==> self.in_progress@[j] != key,
            decreases self.in_progress@.len() - i,
    {
            if self.in_progress[i] == key {
                return true;
            }
            i += 1;
        }
        false
    }

    /// Memoizes `key` if needed: a memoized key is left untouched; a key on
    /// the in-progress stack is a cycle; otherwise the registered
    /// dependencies are evaluated depth-first with `key` marked in
    /// progress, the program computes the value from theirs, and the result
    /// is stored.  The memo only ever grows, and a memoized value never
    /// changes.
    #[verifier::loop_isolation(false)]
    fn evaluate<P: DataPlugin<V>>(&mut self, program: &P, key: u64) -> (r: Result<
        (),
        ContextError,
    >)
        requires
            old(self).inv(),
        ensures
            final(self).inv(),
            final(self).registry == old(self).registry,
            final(self).in_progress@ == old(self).in_progress@,
            forall|k: u64|
                #[trigger] old(self)@.contains_key(k) ==> final(self)@.contains_key(k)
                    && final(self)@[k] == old(self)@[k],
            match eval_key(
                old(self).registry_view(),
                old(self)@.dom(),
                old(self).in_progress@.to_set(),
                key,
            ) {
                Outcome::Done { done } => r is Ok && final(self)@.dom() == done
                    && final(self)@.contains_key(key),
                Outcome::Cycle => r == Err::<(), ContextError>(ContextError::CircularDependency),
                Outcome::Unregistered => r == Err::<(), ContextError>(ContextError::NotRegistered),
            },
        decreases old(self).registry_view().dom().len() - old(self).in_progress@.len(),
    {
        let ghost reg = self.registry_view();
        let ghost done0 = self@.dom();
        let ghost stack0 = self.in_progress@.to_set();
        proof {
            self.lemma_registry_dom();
            self.registry.lemma_dom_finite();
            assert(reg.dom().finite());
            assert(stack0.subset_of(reg.dom())) by {
                assert forall|x: u64| stack0.contains(x) implies reg.dom().contains(x) by {
                    assert(self.in_progress@.contains(x));
                    let j = choose|j: int|
                        0 <= j < self.in_progress@.len() && self.in_progress@[j] == x;
                    assert(self.registry@.dom().contains(self.in_progress@[j]));
                }
            }
        }
        // Already memoized: nothing to compute.
        match self.data.get(key) {
            Some(_) => {
                proof {
                    assert(done0.contains(key));
                    assert(eval_key(reg, done0, stack0, key) == Outcome::Done { done: done0 });
                }
                return Ok(());
            },
            None => {},
        }
        // Mid-computation already: the dependency graph has a cycle.
        if self.in_progress_contains(key) {
            proof {
                assert(stack0.contains(key));
                assert(eval_key(reg, done0, stack0, key) == Outcome::Cycle);
            }
            return Err(ContextError::CircularDependency);
        }
        // Unregistered keys have no initializer to run.
        let deps = match self.registry.get(key) {
            None => {
                proof {
                    assert(!reg.dom().contains(key));
                    assert(eval_key(reg, done0, stack0, key) == Outcome::Unregistered);
                }
                return Err(ContextError::NotRegistered);
            },
            Some(d) => d.clone(),
        };
        proof {
            assert(deps@ =~= reg[key]) by {
                assert(forall|i: int|
                    0 <= i < deps@.len() ==> cloned::<u64>(self.registry@[key]@[i], #[trigger] deps@[i]));
                assert forall|i: int| 0 <= i < deps@.len() implies deps@[i]
                    == self.registry@[key]@[i] by {
                    assert(cloned::<u64>(self.registry@[key]@[i], deps@[i]));
                }
            }
        }
        // Mark the key in progress while its dependencies are evaluated.
        let ghost ip0 = self.in_progress@;
        self.in_progress.push(key);
        let ghost stack1 = stack0.insert(key);
        proof {
            assert(self.in_progress@.to_set() =~= stack1) by {
                assert forall|x: u64| #[trigger] self.in_progress@.contains(x) implies (
                ip0.contains(x) || x == key) by {
                    let j = choose|j: int|
                        0 <= j < self.in_progress@.len() && self.in_progress@[j] == x;
                    if j < ip0.len() {
                        assert(ip0[j] == x);
                    }
                }
                assert forall|x: u64| ip0.contains(x) || x == key implies self.in_progress@.contains(
                    x,
                ) by {
                    if x == key {
                        assert(self.in_progress@[ip0.len() as int] == key);
                    } else {
                        let j = choose|j: int| 0 <= j < ip0.len() && ip0[j] == x;
                        assert(self.in_progress@[j] == x);
                    }
                }
            }
            assert(self.in_progress@.no_duplicates()) by {
                assert forall|i: int, j: int|
                    0 <= i < self.in_progress@.len() && 0 <= j < self.in_progress@.len() && i
                        != j implies self.in_progress@[i] != self.in_progress@[j] by {
                    if i < ip0.len() && j < ip0.len() {
                        assert(ip0[i] != ip0[j]);
                    } else if i < ip0.len() {
                        assert(!stack0.contains(key));
                        assert(!ip0.contains(key));
                        assert(ip0[i] == self.in_progress@[i]);
                    } else if j < ip0.len() {
                        assert(!stack0.contains(key));
                        assert(!ip0.contains(key));
                        assert(ip0[j] == self.in_progress@[j]);
                    }
                }
            }
            assert(self.inv());
            lemma_len_subset(stack1, reg.dom());
            vstd::set::axiom_set_insert_len(stack0, key);
        }
        // Evaluate the dependencies left to right; the first failure wins.
        let mut idx: usize = 0;
        while idx < deps.len()
            invariant
                self.inv(),
                self.registry == old(self).registry,
                reg == self.registry_view(),
                reg.dom().finite(),
                self.in_progress@ == ip0.push(key),
                ip0 == old(self).in_progress@,
                self.in_progress@.to_set() == stack1,
                stack1 == stack0.insert(key),
                stack0 == ip0.to_set(),
                stack1.finite(),
                stack1.subset_of(reg.dom()),
                done0 == old(self)@.dom(),
                !done0.contains(key),
                !stack0.contains(key),
                reg.dom().contains(key),
                deps@ == reg[key],
                idx <= deps@.len(),
                forall|k: u64|
                    #[trigger] old(self)@.contains_key(k) ==> self@.contains_key(k) && self@[k]
                        == old(self)@[k],
                forall|j: int| 0 <= j < idx ==> self@.contains_key(#[trigger] deps@[j]),
                eval_deps(reg, self@.dom(), stack1, deps@.skip(idx as int)) == eval_deps(
                    reg,
                    done0,
                    stack1,
                    deps@,
                ),
            decreases deps@.len() - idx,
        {
            let dep = deps[idx];
            let ghost mid = *self;
            proof {
                self.in_progress@.unique_seq_to_set();
                lemma_len_subset(self.in_progress@.to_set(), reg.dom());
            }
            let r = self.evaluate(program, dep);
            let ghost rest = deps@.skip(idx as int);
            proof {
                assert(rest.len() > 0);
                assert(rest[0] == dep);
            }
            match r {
                Err(e) => {
                    proof {
                        assert(eval_deps(reg, mid@.dom(), stack1, rest) == eval_key(
                            reg,
                            mid@.dom(),
                            stack1,
                            dep,
                        ));
                        assert(eval_deps(reg, done0, stack1, deps@) == eval_key(
                            reg,
                            mid@.dom(),
                            stack1,
                            dep,
                        ));
                        assert(eval_key(reg, done0, stack0, key) == eval_deps(
                            reg,
                            done0,
                            stack1,
                            deps@,
                        ));
                    }
                    let _ = self.in_progress.pop();
                    proof {
                        assert(self.in_progress@ =~= ip0);
                        assert forall|k: u64| #[trigger] old(self)@.contains_key(k) implies self@.contains_key(
                            k,
                        ) && self@[k] == old(self)@[k] by {
                            assert(mid@.contains_key(k));
                            assert(self@.contains_key(k));
                        }
                    }
                    return Err(e);
                },
                Ok(_) => {
                    proof {
                        assert(eval_key(reg, mid@.dom(), stack1, dep) matches Outcome::Done {
                            done,
                        } && done == self@.dom()) by {
                            match eval_key(reg, mid@.dom(), stack1, dep) {
                                Outcome::Done { done } => {},
                                Outcome::Cycle => {
                                    assert(false);
                                },
                                Outcome::Unregistered => {
                                    assert(false);
                                },
                            }
                        }
                        assert(eval_deps(reg, mid@.dom(), stack1, rest) == eval_deps(
                            reg,
                            self@.dom(),
                            stack1,
                            rest.drop_first(),
                        ));
                        assert(rest.drop_first() =~= deps@.skip(idx + 1));
                        assert forall|k: u64| #[trigger] old(self)@.contains_key(k) implies self@.contains_key(
                            k,
                        ) && self@[k] == old(self)@[k] by {
                            assert(mid@.contains_key(k));
                            assert(self@.contains_key(k));
                        }
                        assert forall|j2: int| 0 <= j2 < idx + 1 implies self@.contains_key(
                            #[trigger] deps@[j2],
                        ) by {
                            if j2 < idx {
                                assert(mid@.contains_key(deps@[j2]));
                            } else {
                                assert(deps@[j2] == dep);
                            }
                        }
                    }
                },
            }
            idx += 1;
        }
        let ghost dn = self@.dom();
        proof {
            assert(deps@.skip(deps@.len() as int).len() == 0);
            assert(eval_deps(reg, dn, stack1, deps@.skip(deps@.len() as int)) == Outcome::Done {
                done: dn,
            });
            assert(eval_deps(reg, done0, stack1, deps@) == Outcome::Done { done: dn });
            assert(eval_key(reg, done0, stack0, key) == Outcome::Done { done: dn.insert(key) });
            // The key itself is still unmemoized: it was on the stack the
            // whole time.
            lemma_eval_deps_frame(reg, done0, stack1, deps@);
            assert(!dn.contains(key));
        }
        // Every dependency is memoized now; hand their values to the
        // program.
        let mut dep_values: Vec<&V> = Vec::new();
        let mut j: usize = 0;
        while j < deps.len()
            invariant
                j <= deps@.len(),
                forall|jj: int| 0 <= jj < deps@.len() ==> self@.contains_key(#[trigger] deps@[jj]),
            decreases deps@.len() - j,
        {
            let dep = deps[j];
            match self.data.get(dep) {
                Some(v) => {
                    dep_values.push(v);
                },
                None => {
                    proof {
                        assert(false);
                    }
                },
            }
            j += 1;
        }
        let value = program.init(key, &dep_values);
        // Unmark the key and memoize its value.
        let _ = self.in_progress.pop();
        proof {
            assert(self.in_progress@ =~= ip0);
        }
        match self.data.try_insert(key, value) {
            Ok(_) => {
                proof {
                    assert(self@.dom() =~= dn.insert(key));
                }
                Ok(())
            },
            Err(_) => {
                proof {
                    assert(false);
                }
                Err(ContextError::NotRegistered)
            },
        }
    }

    /// A shared reference to `key`'s data, computed on first access.  A
    /// memoized key returns its stored value and the store is left exactly
    /// as it was; otherwise the registered dependencies are evaluated
    /// depth-first and the program's result is memoized.  A key whose
    /// initializer, directly or transitively, requests the key's own value
    /// fails with `CircularDependency`; a key without a registration fails
    /// with `NotRegistered`.  Memoized values never change and are never
    /// recomputed.
    pub fn get_data<P: DataPlugin<V>>(&mut self, program: &P, key: u64) -> (r: Result<
        &V,
        ContextError,
    >)
        requires
            old(self).wf(),
        ensures
            final(self).wf(),
            final(self).registry_view() == old(self).registry_view(),
            forall|k: u64|
                #[trigger] old(self)@.contains_key(k) ==> final(self)@.contains_key(k)
                    && final(self)@[k] == old(self)@[k],
            old(self)@.contains_key(key) ==> final(self)@ == old(self)@,
            match eval_key(old(self).registry_view(), old(self)@.dom(), Set::empty(), key) {
                Outcome::Done { done } => r is Ok && final(self)@.dom() == done
                    && final(self)@.contains_key(key),
                Outcome::Cycle => r == Err::<&V, ContextError>(ContextError::CircularDependency),
                Outcome::Unregistered => r == Err::<&V, ContextError>(
                    ContextError::NotRegistered,
                ),
            },
            r matches Ok(v) ==> final(self)@.contains_key(key) && *v == final(self)@[key],
    {
        let ghost reg0 = self.registry_view();
        proof {
            self.lemma_registry_dom();
            self.registry.lemma_dom_finite();
            assert(reg0.dom().finite());
            assert(old(self).in_progress@.to_set() =~= Set::<u64>::empty());
        }
        match self.evaluate(program, key) {
            Err(e) => Err(e),
            Ok(_) => {
                proof {
                    if old(self)@.contains_key(key) {
                        assert(eval_key(reg0, old(self)@.dom(), Set::<u64>::empty(), key)
                            == Outcome::Done { done: old(self)@.dom() });
                        assert(self@.dom() == old(self)@.dom());
                        assert forall|k: u64| #[trigger] self@.dom().contains(k) implies self@[k]
                            == old(self)@[k] by {
                            assert(old(self)@.contains_key(k));
                        }
                        assert(self@ =~= old(self)@);
                    }
                }
                match self.data.get(key) {
                    Some(v) => Ok(v),
                    None => {
                        proof {
                            assert(false);
                        }
                        Err(ContextError::NotRegistered)
                    },
                }
            },
        }
    }

    /// An exclusive reference to `key`'s data, computed on first access.  A
    /// memoized key hands out its existing value directly, without
    /// recomputation, so an earlier mutation is never silently discarded;
    /// only that key's value can change through the reference.  Errors are
    /// as for `get_data`.
    pub fn get_data_mut<P: DataPlugin<V>>(&mut self, program: &P, key: u64) -> (r: Result<
        &mut V,
        ContextError,
    >)
        requires
            old(self).wf(),
        ensures
            final(self).wf(),
            final(self).registry_view() == old(self).registry_view(),
            match eval_key(old(self).registry_view(), old(self)@.dom(), Set::empty(), key) {
                Outcome::Done { done } => r is Ok && final(self)@.dom() == done,
                Outcome::Cycle => r == Err::<&mut V, ContextError>(
                    ContextError::CircularDependency,
                ),
                Outcome::Unregistered => r == Err::<&mut V, ContextError>(
                    ContextError::NotRegistered,
                ),
            },
            r matches Ok(m) ==> final(self)@.contains_key(key) && final(self)@[key] == *final(m)
                && (forall|k: u64|
                k != key && #[trigger] old(self)@.contains_key(k) ==> final(self)@.contains_key(k)
                    && final(self)@[k] == old(self)@[k]) && (old(self)@.contains_key(key) ==> *m
                == old(self)@[key] && final(self)@ == old(self)@.insert(key, *final(m))),
            r is Err ==> forall|k: u64|
                #[trigger] old(self)@.contains_key(k) ==> final(self)@.contains_key(k)
                    && final(self)@[k] == old(self)@[k],
    {
        let ghost reg0 = self.registry_view();
        proof {
            self.lemma_registry_dom();
            self.registry.lemma_dom_finite();
            assert(reg0.dom().finite());
            assert(old(self).in_progress@.to_set() =~= Set::<u64>::empty());
        }
        match self.evaluate(program, key) {
            Err(e) => Err(e),
            Ok(_) => {
                let ghost midv = self@;
                proof {
                    if old(self)@.contains_key(key) {
                        assert(eval_key(reg0, old(self)@.dom(), Set::<u64>::empty(), key)
                            == Outcome::Done { done: old(self)@.dom() });
                        assert(midv.dom() == old(self)@.dom());
                        assert forall|k: u64| #[trigger] midv.dom().contains(k) implies midv[k]
                            == old(self)@[k] by {
                            assert(old(self)@.contains_key(k));
                        }
                        assert(midv =~= old(self)@);
                    }
                }
                match self.data.get_mut(key) {
                    Some(m) => {
                        proof {
                            assert forall|x: V| (#[trigger] midv.insert(key, x)).dom()
                                =~= midv.dom() by {
                                assert(midv.contains_key(key));
                            }
                        }
                        Ok(m)
                    },
                    None => {
                        proof {
                            assert(false);
                        }
                        Err(ContextError::NotRegistered)
                    },
                }
            },
        }
    }
}

} // verus!
