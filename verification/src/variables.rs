//! The context-scoped variable store: a mapping from context name to a flat
//! name-to-value mapping, and the manager that resolves command templates
//! against one context's variables.  A context that was never written is
//! the same as an empty mapping, never an error.

use vstd::prelude::*;
use crate::assoc::{
    assoc_find, assoc_map, distinct_keys, lemma_assoc_find_absent, lemma_assoc_find_agree,
    lemma_assoc_find_first, lemma_assoc_find_push, lemma_assoc_map_at, lemma_assoc_map_dom,
    lemma_assoc_map_push, lemma_assoc_map_remove, lemma_assoc_map_update,
};
use crate::errors::DooError;
use crate::resolver::{pairs_view, resolve_template_spec, strs_view, resolve_template};
use crate::strings::str_eq;

verus! {

/// One context's variables: name/value pairs with pairwise-distinct names,
/// kept in insertion order (the substitution pass runs in this order).
pub struct Variables {
    pub vars: Vec<(String, String)>,
}

impl View for Variables {
    type V = Seq<(Seq<char>, Seq<char>)>;

    open spec fn view(&self) -> Seq<(Seq<char>, Seq<char>)> {
        pairs_view(self.vars@)
    }
}

impl Variables {
    /// Names are pairwise distinct.
    pub open spec fn wf(&self) -> bool {
        distinct_keys(self@)
    }

    /// The mapping this store denotes.
    pub open spec fn as_map(&self) -> Map<Seq<char>, Seq<char>> {
        assoc_map(self@)
    }

    /// An empty store.
    pub fn new() -> (r: Variables)
        ensures
            r@ =~= Seq::<(Seq<char>, Seq<char>)>::empty(),
            r.wf(),
    {
        Variables { vars: Vec::new() }
    }

    /// The index of the pair holding `name`, if any.
    fn find(&self, name: &str) -> (r: Option<usize>)
        ensures
            match r {
                Some(i) => i < self@.len() && self@[i as int].0 == name@,
                None => forall|i: int| 0 <= i < self@.len() ==> self@[i].0 != name@,
            },
    {
        for i in 0..self.vars.len()
            invariant
                forall|j: int| 0 <= j < i ==> self@[j].0 != name@,
        {
            if str_eq(self.vars[i].0.as_str(), name) {
                return Some(i);
            }
        }
        None
    }

    /// Sets `name` to `value`: the stored pair is updated in place, or a new
    /// pair is appended.
    pub fn set(&mut self, name: &str, value: &str)
        requires
            old(self).wf(),
        ensures
            final(self).wf(),
            final(self).as_map() == old(self).as_map().insert(name@, value@),
            if exists|j: int| 0 <= j < old(self)@.len() && old(self)@[j].0 == name@ {
                exists|j: int|
                    0 <= j < old(self)@.len() && old(self)@[j].0 == name@ && final(self)@ == old(
                        self,
                    )@.update(j, (name@, value@))
            } else {
                final(self)@ == old(self)@.push((name@, value@))
            },
    {
        match self.find(name) {
            Some(i) => {
                let slot = &mut self.vars[i];
                slot.1 = value.to_owned();
                proof {
                    assert(self@ =~= old(self)@.update(i as int, (name@, value@)));
                    lemma_assoc_map_update(old(self)@, i as int, value@);
                }
            },
            None => {
                self.vars.push((name.to_owned(), value.to_owned()));
                proof {
                    assert(self@ =~= old(self)@.push((name@, value@)));
                    lemma_assoc_map_push(old(self)@, name@, value@);
                    assert forall|a: int, b: int|
                        0 <= a < b < self@.len() implies self@[a].0 != self@[b].0 by {
                        if b < self@.len() - 1 {
                            assert(old(self)@[a].0 != old(self)@[b].0);
                        }
                    }
                }
            },
        }
    }

    /// The value stored under `name`, if any.
    pub fn get(&self, name: &str) -> (r: Option<String>)
        requires
            self.wf(),
        ensures
            match r {
                Some(v) => self.as_map().contains_key(name@) && v@ == self.as_map()[name@],
                None => !self.as_map().contains_key(name@),
            },
    {
        proof {
            lemma_assoc_map_dom(self@);
            lemma_assoc_map_at(self@);
        }
        match self.find(name) {
            Some(i) => Some(self.vars[i].1.clone()),
            None => None,
        }
    }

    /// Removes `name`; reports whether a pair was removed.
    pub fn remove(&mut self, name: &str) -> (r: bool)
        requires
            old(self).wf(),
        ensures
            final(self).wf(),
            r == old(self).as_map().contains_key(name@),
            final(self).as_map() == old(self).as_map().remove(name@),
            if r {
                exists|j: int|
                    0 <= j < old(self)@.len() && old(self)@[j].0 == name@ && final(self)@ == old(
                        self,
                    )@.remove(j)
            } else {
                final(self)@ == old(self)@
            },
    {
        proof {
            lemma_assoc_map_dom(self@);
        }
        match self.find(name) {
            Some(i) => {
                self.vars.remove(i);
                proof {
                    assert(self@ =~= old(self)@.remove(i as int));
                    lemma_assoc_map_remove(old(self)@, i as int);
                    assert forall|a: int, b: int|
                        0 <= a < b < self@.len() implies self@[a].0 != self@[b].0 by {
                        let a0 = if a < i { a } else { a + 1 };
                        let b0 = if b < i { b } else { b + 1 };
                        assert(old(self)@[a0].0 != old(self)@[b0].0);
                    }
                }
                true
            },
            None => {
                proof {
                    assert(!old(self).as_map().contains_key(name@));
                    assert(final(self).as_map() =~= old(self).as_map().remove(name@));
                }
                false
            },
        }
    }

    /// A copy of all pairs, in stored order.
    pub fn to_pairs(&self) -> (r: Vec<(String, String)>)
        ensures
            pairs_view(r@) == self@,
    {
        let mut r: Vec<(String, String)> = Vec::new();
        for i in 0..self.vars.len()
            invariant
                r@.len() == i,
                forall|k: int|
                    0 <= k < i ==> (#[trigger] r@[k]).0@ == self.vars@[k].0@ && r@[k].1@
                        == self.vars@[k].1@,
        {
            let name = self.vars[i].0.clone();
            let value = self.vars[i].1.clone();
            r.push((name, value));
        }
        proof {
            assert forall|k: int|
                0 <= k < r@.len() implies pairs_view(r@)[k] == self@[k] by {
            }
            assert(pairs_view(r@) =~= self@);
        }
        r
    }

    /// Builds a store from a list of pairs; refused when two pairs share a
    /// name.
    pub fn from_pairs(pairs: Vec<(String, String)>) -> (r: Result<Variables, DooError>)
        ensures
            match r {
                Ok(v) => v@ == pairs_view(pairs@) && v.wf(),
                Err(e) => e == DooError::MalformedDocument && !distinct_keys(pairs_view(pairs@)),
            },
    {
        let ghost pv = pairs_view(pairs@);
        for i in 0..pairs.len()
            invariant
                pv == pairs_view(pairs@),
                forall|a: int, b: int| 0 <= a < b < i ==> pv[a].0 != pv[b].0,
        {
            for j in 0..i
                invariant
                    i < pairs@.len(),
                    pv == pairs_view(pairs@),
                    forall|b: int| 0 <= b < j ==> pv[b].0 != pv[i as int].0,
            {
                if str_eq(pairs[j].0.as_str(), pairs[i].0.as_str()) {
                    proof {
                        assert(pv[j as int].0 == pv[i as int].0);
                    }
                    return Err(DooError::MalformedDocument);
                }
            }
        }
        Ok(Variables { vars: pairs })
    }
}

/// The in-memory store of every context's variables, and the resolver
/// entry point.  Persistence of contexts lives outside this engine.
pub struct VariableManager {
    pub contexts: Vec<(String, Variables)>,
}

impl VariableManager {
    /// The association of context names to their variable pair lists.
    pub open spec fn ctxs(&self) -> Seq<(Seq<char>, Seq<(Seq<char>, Seq<char>)>)> {
        Seq::new(self.contexts@.len(), |i: int| (self.contexts@[i].0@, self.contexts@[i].1@))
    }

    /// Context names are distinct and each store is well formed.
    pub open spec fn wf(&self) -> bool {
        distinct_keys(self.ctxs()) && forall|i: int|
            0 <= i < self.contexts@.len() ==> (#[trigger] self.contexts@[i].1).wf()
    }

    /// The variable pairs of one context; a context never written is empty.
    pub open spec fn ctx_vars(&self, context: Seq<char>) -> Seq<(Seq<char>, Seq<char>)> {
        match assoc_find(self.ctxs(), context) {
            Some(ps) => ps,
            None => Seq::empty(),
        }
    }

    /// The mapping one context denotes.
    pub open spec fn ctx_map(&self, context: Seq<char>) -> Map<Seq<char>, Seq<char>> {
        assoc_map(self.ctx_vars(context))
    }

    /// An empty manager: every context resolves to the empty mapping.
    pub fn new() -> (r: VariableManager)
        ensures
            r.wf(),
            r.ctxs().len() == 0,
            forall|c: Seq<char>| r.ctx_vars(c) == Seq::<(Seq<char>, Seq<char>)>::empty(),
    {
        let r = VariableManager { contexts: Vec::new() };
        proof {
            assert forall|c: Seq<char>|
                r.ctx_vars(c) == Seq::<(Seq<char>, Seq<char>)>::empty() by {
                assert(r.ctxs().len() == 0);
            }
        }
        r
    }

    /// The index of the named context, if it exists.
    fn find_context(&self, context: &str) -> (r: Option<usize>)
        ensures
            match r {
                Some(i) => i < self.ctxs().len() && self.ctxs()[i as int].0 == context@
                    && forall|j: int| 0 <= j < i ==> self.ctxs()[j].0 != context@,
                None => forall|i: int| 0 <= i < self.ctxs().len() ==> self.ctxs()[i].0 != context@,
            },
    {
        for i in 0..self.contexts.len()
            invariant
                forall|j: int| 0 <= j < i ==> self.ctxs()[j].0 != context@,
        {
            if str_eq(self.contexts[i].0.as_str(), context) {
                return Some(i);
            }
        }
        None
    }

    /// Sets `name` to `value` in the named context, creating the context if
    /// it does not exist yet.  No other context is touched.
    pub fn set_variable(&mut self, context: &str, name: &str, value: &str) -> (r: Result<
        (),
        DooError,
    >)
        requires
            old(self).wf(),
        ensures
            r is Ok,
            final(self).wf(),
            final(self).ctx_map(context@) == old(self).ctx_map(context@).insert(name@, value@),
            if exists|j: int|
                0 <= j < old(self).ctx_vars(context@).len() && old(self).ctx_vars(context@)[j].0
                    == name@ {
                exists|j: int|
                    0 <= j < old(self).ctx_vars(context@).len() && old(self).ctx_vars(
                        context@,
                    )[j].0 == name@ && final(self).ctx_vars(context@) == old(self).ctx_vars(
                        context@,
                    ).update(j, (name@, value@))
            } else {
                final(self).ctx_vars(context@) == old(self).ctx_vars(context@).push(
                    (name@, value@),
                )
            },
            forall|c: Seq<char>|
                c != context@ ==> final(self).ctx_vars(c) == old(self).ctx_vars(c),
    {
        match self.find_context(context) {
            Some(i) => {
                proof {
                    lemma_assoc_find_first(self.ctxs(), i as int);
                }
                let slot = &mut self.contexts[i].1;
                slot.set(name, value);
                proof {
                    let oc = old(self).ctxs();
                    let nc = self.ctxs();
                    assert(nc.len() == oc.len());
                    assert forall|j: int| 0 <= j < oc.len() implies nc[j].0 == oc[j].0 by {}
                    lemma_assoc_find_agree(nc, oc, i as int);
                    lemma_assoc_find_first(nc, i as int);
                    assert(self.ctx_vars(context@) == self.contexts@[i as int].1@);
                }
            },
            None => {
                proof {
                    lemma_assoc_find_absent(self.ctxs(), context@);
                }
                let mut v = Variables::new();
                v.set(name, value);
                self.contexts.push((context.to_owned(), v));
                proof {
                    let oc = old(self).ctxs();
                    let nc = self.ctxs();
                    let p = (context@, self.contexts@[oc.len() as int].1@);
                    assert(nc =~= oc.push(p));
                    lemma_assoc_find_push(oc, p, context@);
                    assert forall|c: Seq<char>|
                        c != context@ implies self.ctx_vars(c) == old(self).ctx_vars(
                        c,
                    ) by {
                        lemma_assoc_find_push(oc, p, c);
                    }
                    assert(old(self).ctx_vars(context@) =~= Seq::<(Seq<char>, Seq<char>)>::empty());
                    assert(self.ctx_vars(context@) =~= Seq::<(Seq<char>, Seq<char>)>::empty().push((name@, value@)));
                    assert forall|a: int, b: int|
                        0 <= a < b < nc.len() implies nc[a].0 != nc[b].0 by {
                        if b < nc.len() - 1 {
                            assert(oc[a].0 != oc[b].0);
                        } else {
                            assert(oc[a].0 != context@);
                        }
                    }
                    assert(old(self).ctx_map(context@) =~= Map::<Seq<char>, Seq<char>>::empty());
                    lemma_assoc_map_push(Seq::<(Seq<char>, Seq<char>)>::empty(), name@, value@);
                    assert(self.ctx_map(context@) =~= old(self).ctx_map(context@).insert(
                        name@,
                        value@,
                    ));
                }
            },
        }
        Ok(())
    }

    /// The value stored under `name` in the named context, if any.
    pub fn get_variable(&self, context: &str, name: &str) -> (r: Result<Option<String>, DooError>)
        requires
            self.wf(),
        ensures
            match r {
                Ok(Some(v)) => self.ctx_map(context@).contains_key(name@) && v@ == self.ctx_map(
                    context@,
                )[name@],
                Ok(None) => !self.ctx_map(context@).contains_key(name@),
                Err(_) => false,
            },
    {
        match self.find_context(context) {
            Some(i) => {
                proof {
                    lemma_assoc_find_first(self.ctxs(), i as int);
                }
                Ok(self.contexts[i].1.get(name))
            },
            None => {
                proof {
                    lemma_assoc_find_absent(self.ctxs(), context@);
                    assert(self.ctx_map(context@) =~= Map::<Seq<char>, Seq<char>>::empty());
                }
                Ok(None)
            },
        }
    }

    /// Every pair of the named context, in stored order.
    pub fn list_variables(&self, context: &str) -> (r: Result<Vec<(String, String)>, DooError>)
        requires
            self.wf(),
        ensures
            match r {
                Ok(ps) => pairs_view(ps@) == self.ctx_vars(context@),
                Err(_) => false,
            },
    {
        match self.find_context(context) {
            Some(i) => {
                proof {
                    lemma_assoc_find_first(self.ctxs(), i as int);
                }
                Ok(self.contexts[i].1.to_pairs())
            },
            None => {
                proof {
                    lemma_assoc_find_absent(self.ctxs(), context@);
                    assert(pairs_view(Seq::<(String, String)>::empty()) =~= Seq::<(
                        Seq<char>,
                        Seq<char>,
                    )>::empty());
                }
                Ok(Vec::new())
            },
        }
    }

    /// Removes `name` from the named context; reports whether a pair was
    /// removed.  No other context is touched.
    pub fn remove_variable(&mut self, context: &str, name: &str) -> (r: Result<bool, DooError>)
        requires
            old(self).wf(),
        ensures
            final(self).wf(),
            match r {
                Ok(b) => {
                    &&& b == old(self).ctx_map(context@).contains_key(name@)
                    &&& final(self).ctx_map(context@) == old(self).ctx_map(context@).remove(name@)
                    &&& forall|c: Seq<char>|
                        c != context@ ==> final(self).ctx_vars(c) == old(self).ctx_vars(c)
                },
                Err(_) => false,
            },
    {
        match self.find_context(context) {
            Some(i) => {
                proof {
                    lemma_assoc_find_first(self.ctxs(), i as int);
                }
                let slot = &mut self.contexts[i].1;
                let b = slot.remove(name);
                proof {
                    let oc = old(self).ctxs();
                    let nc = self.ctxs();
                    assert(nc.len() == oc.len());
                    assert forall|j: int| 0 <= j < oc.len() implies nc[j].0 == oc[j].0 by {}
                    lemma_assoc_find_agree(nc, oc, i as int);
                    lemma_assoc_find_first(nc, i as int);
                }
                Ok(b)
            },
            None => {
                proof {
                    lemma_assoc_find_absent(self.ctxs(), context@);
                    assert(self.ctx_map(context@) =~= Map::<Seq<char>, Seq<char>>::empty());
                    assert(self.ctx_map(context@) =~= old(self).ctx_map(context@).remove(
                        name@,
                    ));
                }
                Ok(false)
            },
        }
    }

    /// Resolves a template against the named context's variables and the
    /// call-time arguments.  Resolution never fails: unmatched placeholders
    /// stay in the result verbatim.
    pub fn resolve_variables(&self, context: &str, template: &str, args: &[String]) -> (r: Result<
        String,
        DooError,
    >)
        requires
            args@.len() + 10 < usize::MAX,
        ensures
            match r {
                Ok(s) => s@ == resolve_template_spec(
                    template@,
                    self.ctx_vars(context@),
                    strs_view(args@),
                ),
                Err(_) => false,
            },
    {
        match self.find_context(context) {
            Some(i) => {
                proof {
                    lemma_assoc_find_first(self.ctxs(), i as int);
                }
                Ok(resolve_template(template, &self.contexts[i].1.vars, args))
            },
            None => {
                proof {
                    lemma_assoc_find_absent(self.ctxs(), context@);
                }
                let empty: Vec<(String, String)> = Vec::new();
                proof {
                    assert(pairs_view(empty@) =~= Seq::<(Seq<char>, Seq<char>)>::empty());
                }
                Ok(resolve_template(template, &empty, args))
            },
        }
    }
}

} // verus!
