//! The initialisation context: tracks which beans are ready and which
//! are still being built, detects circular initialisation, and hands the
//! teardown order out when initialisation completes.
//!
//! The building of a bean's value itself happens outside this library;
//! the embedding application drives it and reports back through
//! [`InitCtx::begin`] and [`InitCtx::finish`].  Every decision — serve a
//! ready bean, refuse a cycle, or proceed — is made here.

use vstd::prelude::*;

use crate::errors::IocError;

verus! {

/// Whether a position of `s` before `k` holds `key`.
pub open spec fn holds_before(s: Seq<u64>, k: int, key: u64) -> bool {
    exists|i: int| 0 <= i < k && s[i] == key
}

/// What beginning a bean's initialisation decided.
#[derive(PartialEq, Eq, Structural, Debug, Clone, Copy)]
pub enum InitStep {
    /// The bean is already initialised; serve it as it stands.
    AlreadyReady,
    /// The bean's own initialisation was started; the caller must build
    /// it and report back through [`InitCtx::finish`].
    Started,
}

/// Tracks initialisation: the keys of the beans that are ready, in the
/// order they became ready, and the stack of beans whose initialisation
/// is under way.
pub struct InitCtx {
    pub ready: Vec<u64>,
    pub pending: Vec<u64>,
}

impl InitCtx {
    /// A fresh context: nothing ready, nothing pending.
    pub fn new() -> (r: Self)
        ensures
            r.ready@ == Seq::<u64>::empty(),
            r.pending@ == Seq::<u64>::empty(),
    {
        InitCtx { ready: Vec::new(), pending: Vec::new() }
    }

    /// Begins the initialisation of the bean identified by `key`.
    ///
    /// A ready bean is served as it stands; a bean that is still being
    /// initialised further down the call chain is a circular dependency
    /// and is refused; otherwise the bean is pushed onto the pending
    /// stack and the caller builds it.
    pub fn begin(&mut self, key: u64) -> (r: Result<InitStep, IocError>)
        ensures
            ({
                let ready = old(self).ready@;
                let pending = old(self).pending@;
                match r {
                    Ok(InitStep::AlreadyReady) => {
                        &&& holds_before(ready, ready.len() as int, key)
                        &&& *final(self) == *old(self)
                    },
                    Ok(InitStep::Started) => {
                        &&& !holds_before(ready, ready.len() as int, key)
                        &&& !holds_before(pending, pending.len() as int, key)
                        &&& final(self).pending@ == pending.push(key)
                        &&& final(self).ready@ == ready
                    },
                    Err(e) => {
                        &&& e is CircularDependency
                        &&& !holds_before(ready, ready.len() as int, key)
                        &&& holds_before(pending, pending.len() as int, key)
                        &&& *final(self) == *old(self)
                    },
                }
            }),
    {
        if Self::contains(&self.ready, key) {
            Ok(InitStep::AlreadyReady)
        } else if Self::contains(&self.pending, key) {
            Err(IocError::CircularDependency)
        } else {
            self.pending.push(key);
            Ok(InitStep::Started)
        }
    }

    /// Finishes the initialisation begun last: pops the bean from the
    /// pending stack and, if its build succeeded, records it ready.
    pub fn finish(&mut self, key: u64, ok: bool) -> (r: bool)
        requires
            old(self).pending@.len() > 0,
            old(self).pending@.last() == key,
        ensures
            r,
            final(self).pending@ == old(self).pending@.drop_last(),
            final(self).ready@ == if ok {
                old(self).ready@.push(key)
            } else {
                old(self).ready@
            },
    {
        let popped = match self.pending.pop() {
            Some(k) => k,
            None => {
                proof {
                    assert(false);
                }
                0
            },
        };
        if ok {
            self.ready.push(popped);
        }
        true
    }

    /// Completes initialisation, handing the ready beans over to the
    /// guard that will tear them down.
    pub fn complete(self) -> (r: DropGuard)
        requires
            self.pending@.len() == 0,
        ensures
            r.ready@ == self.ready@,
    {
        DropGuard { ready: self.ready }
    }

    /// Checks that the bean identified by `key` is ready to be served;
    /// a bean that is not yet initialised is reported by its type name.
    pub fn require_ready(&self, key: u64, type_label: String) -> (r: Result<(), IocError>)
        ensures
            r is Ok <==> holds_before(self.ready@, self.ready@.len() as int, key),
            r matches Err(e) ==> (e matches IocError::DependNotReady { type_label: t } && t@
                == type_label@),
    {
        if Self::contains(&self.ready, key) {
            Ok(())
        } else {
            Err(IocError::DependNotReady { type_label })
        }
    }

    /// Whether `v` holds `key`.
    fn contains(v: &Vec<u64>, key: u64) -> (r: bool)
        ensures
            r <==> holds_before(v@, v@.len() as int, key),
    {
        let n = v.len();
        for i in 0..n
            invariant
                n == v@.len(),
                !holds_before(v@, i as int, key),
        {
            if v[i] == key {
                return true;
            }
        }
        false
    }
}

/// Owns the cleanup of every initialised bean: destructors run in exact
/// reverse of the order the beans became ready, exactly once, when the
/// guard is consumed.
pub struct DropGuard {
    pub ready: Vec<u64>,
}

impl DropGuard {
    /// The order the beans' destructors must run in: exact reverse of
    /// the order they became ready.
    pub fn teardown_order(self) -> (r: Vec<u64>)
        ensures
            r@ == self.ready@.reverse(),
    {
        let ghost orig = self.ready@;
        let mut rest = self.ready;
        let mut order: Vec<u64> = Vec::new();
        while rest.len() > 0
            invariant
                rest@ == orig.subrange(0, rest@.len() as int),
                order@.len() + rest@.len() == orig.len(),
                forall|p: int| 0 <= p < order@.len() ==> order@[p] == orig[orig.len() - 1 - p],
            decreases rest@.len(),
        {
            let key = match rest.pop() {
                Some(k) => k,
                None => {
                    proof {
                        assert(false);
                    }
                    0
                },
            };
            order.push(key);
        }
        proof {
            assert(order@ =~= orig.reverse());
        }
        order
    }
}

} // verus!
