//! Core data types for actor / host-runtime communication that are not
//! specific to a single capability, and the per-actor binding state a host
//! delivers to a provider.

use std::collections::HashMap;

use vstd::prelude::*;
use vstd::pervasive::VecAdditionalExecFns;

verus! {

/// Sent to an actor, from the system origin, when its module is being
/// replaced. The bytes, if valid, replace the running actor.
#[derive(Clone, Debug, PartialEq)]
pub struct LiveUpdate {
    /// Raw bytes of the new actor module.
    pub new_module: Vec<u8>,
}

/// Passed to an actor to let it return an empty result; returning without an
/// error means the actor is healthy.
#[derive(Clone, Copy, Debug, PartialEq, Eq, Structural)]
pub struct HealthRequest {
    /// A placeholder not currently used for health checks.
    pub placeholder: bool,
}

/// The per-actor configuration a host delivers to a provider when it binds an
/// actor to it. The module field is the actor's public identity and is used
/// as an opaque key; the values map carries flat string configuration,
/// including the identity claims under the reserved keys of
/// [`crate::registry::ClaimsKey`]. Unrecognized keys are forward-compatible
/// extension data: a provider must not fail a binding because of them.
#[derive(Clone, Debug, PartialEq)]
pub struct CapabilityConfiguration {
    /// The key distinguishing this actor's configuration.
    pub module: String,
    /// Raw configuration values; may be empty.
    pub values: HashMap<String, String>,
}

/// Holds when no two configurations of `s` are keyed by the same module.
pub open spec fn bindings_unique(s: Seq<CapabilityConfiguration>) -> bool {
    forall|i: int, j: int| #![trigger s[i], s[j]] 0 <= i < j < s.len() ==> s[i].module@ != s[j].module@
}

/// Holds when some configuration of `s` is keyed by `module`.
pub open spec fn has_binding(s: Seq<CapabilityConfiguration>, module: Seq<char>) -> bool {
    exists|i: int| #![trigger s[i]] 0 <= i < s.len() && s[i].module@ == module
}

/// The per-actor bindings a provider holds: at most one configuration per
/// module identity. Re-binding a module replaces its prior configuration
/// outright; it never merges with it.
pub struct BindingRegistry {
    bindings: Vec<CapabilityConfiguration>,
}

impl View for BindingRegistry {
    type V = Seq<CapabilityConfiguration>;

    closed spec fn view(&self) -> Seq<CapabilityConfiguration> {
        self.bindings@
    }
}

impl BindingRegistry {
    /// A registry with no bindings.
    pub fn new() -> (r: BindingRegistry)
        ensures
            r@ == Seq::<CapabilityConfiguration>::empty(),
    {
        BindingRegistry { bindings: Vec::new() }
    }

    /// Binds an actor: stores its configuration, replacing in place any prior
    /// configuration with the same module identity.
    pub fn bind(&mut self, config: CapabilityConfiguration)
        requires
            bindings_unique(old(self)@),
        ensures
            bindings_unique(final(self)@),
            has_binding(final(self)@, config.module@),
            !has_binding(old(self)@, config.module@) ==> final(self)@ == old(self)@.push(config),
            forall|i: int|
                0 <= i < old(self)@.len() && old(self)@[i].module@ == config.module@
                    ==> final(self)@ == old(self)@.update(i, config),
    {
        let n = self.bindings.len();
        let mut i: usize = 0;
        while i < n
            invariant
                n == self.bindings.len(),
                i <= n,
                self == old(self),
                bindings_unique(old(self)@),
                forall|j: int| 0 <= j < i ==> old(self)@[j].module@ != config.module@,
            decreases n - i,
        {
            if self.bindings[i].module == config.module {
                self.bindings.set(i, config);
                proof {
                    assert(self@ == old(self)@.update(i as int, config));
                    assert(self@[i as int] == config);
                    assert(has_binding(self@, config.module@));
                    assert forall|p: int, q: int| 0 <= p < q < self@.len() implies self@[p].module@
                        != self@[q].module@ by {
                        assert(old(self)@[i as int].module@ == config.module@);
                        if p != i {
                            assert(self@[p] == old(self)@[p]);
                        }
                        if q != i {
                            assert(self@[q] == old(self)@[q]);
                        }
                    }
                    assert forall|k: int|
                        0 <= k < old(self)@.len() && old(self)@[k].module@
                            == config.module@ implies self@ == old(self)@.update(k, config) by {
                        if k != i {
                            assert(old(self)@[i as int].module@ == config.module@);
                            assert(false);
                        }
                    }
                }
                return ;
            }
            i += 1;
        }
        self.bindings.push(config);
        proof {
            assert(self@ == old(self)@.push(config));
            assert(self@[old(self)@.len() as int] == config);
            assert(has_binding(self@, config.module@));
            assert forall|p: int, q: int| 0 <= p < q < self@.len() implies self@[p].module@
                != self@[q].module@ by {
                if q < old(self)@.len() {
                    assert(self@[p] == old(self)@[p]);
                    assert(self@[q] == old(self)@[q]);
                } else {
                    assert(self@[p] == old(self)@[p]);
                    assert(self@[q] == config);
                }
            }
        }
    }

    /// Removes an actor's binding. Removing a module that is not bound is not
    /// an error: the registry is simply left unchanged.
    pub fn remove(&mut self, module: &str)
        requires
            bindings_unique(old(self)@),
        ensures
            bindings_unique(final(self)@),
            !has_binding(final(self)@, module@),
            !has_binding(old(self)@, module@) ==> final(self)@ == old(self)@,
            forall|i: int|
                0 <= i < old(self)@.len() && old(self)@[i].module@ == module@
                    ==> final(self)@ == old(self)@.remove(i),
    {
        let key: String = module.to_owned();
        let n = self.bindings.len();
        let mut i: usize = 0;
        while i < n
            invariant
                n == self.bindings.len(),
                i <= n,
                self == old(self),
                bindings_unique(old(self)@),
                key@ == module@,
                forall|j: int| 0 <= j < i ==> old(self)@[j].module@ != module@,
            decreases n - i,
        {
            if self.bindings[i].module == key {
                self.bindings.remove(i);
                proof {
                    assert(self@ == old(self)@.remove(i as int));
                    assert(old(self)@[i as int].module@ == module@);
                    assert forall|p: int| 0 <= p < self@.len() implies self@[p].module@
                        != module@ by {
                        if p < i {
                            assert(self@[p] == old(self)@[p]);
                        } else {
                            assert(self@[p] == old(self)@[p + 1]);
                        }
                    }
                    assert forall|p: int, q: int| 0 <= p < q < self@.len() implies self@[p].module@
                        != self@[q].module@ by {
                        assert(self@[p] == if p < i {
                            old(self)@[p]
                        } else {
                            old(self)@[p + 1]
                        });
                        assert(self@[q] == if q < i {
                            old(self)@[q]
                        } else {
                            old(self)@[q + 1]
                        });
                    }
                    assert forall|k: int|
                        0 <= k < old(self)@.len() && old(self)@[k].module@
                            == module@ implies self@ == old(self)@.remove(k) by {
                        if k != i {
                            assert(old(self)@[i as int].module@ == module@);
                            assert(false);
                        }
                    }
                }
                return ;
            }
            i += 1;
        }
    }

    /// The configuration bound for a module, if one is present.
    pub fn configuration_for(&self, module: &str) -> (r: Option<&CapabilityConfiguration>)
        requires
            bindings_unique(self@),
        ensures
            r is Some <==> has_binding(self@, module@),
            match r {
                Some(c) => c.module@ == module@ && exists|i: int|
                    0 <= i < self@.len() && *c == self@[i],
                None => true,
            },
    {
        let key: String = module.to_owned();
        let n = self.bindings.len();
        let mut i: usize = 0;
        while i < n
            invariant
                n == self.bindings.len(),
                i <= n,
                key@ == module@,
                forall|j: int| 0 <= j < i ==> self@[j].module@ != module@,
            decreases n - i,
        {
            if self.bindings[i].module == key {
                let c = &self.bindings[i];
                proof {
                    assert(*c == self@[i as int]);
                }
                return Some(c);
            }
            i += 1;
        }
        None
    }
}

} // verus!
