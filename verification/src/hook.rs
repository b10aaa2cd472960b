//! The hook/aspect pipeline run around every CRUD operation.
//!
//! A [`Hook`] is a unit of collaborator logic; an [`Aspect`] is a named,
//! ordered list of hooks.  At each lifecycle point the store invokes every
//! hook of every aspect registered there, in order, stopping at the first
//! failure.  Hooks are polymorphic over two capability sets: identifier-only
//! access and mutable-entry access.

use vstd::prelude::*;

use crate::entry::{Entry, SpecEntry};
use crate::error::{StoreError, StoreErrorKind};
use crate::storeid::StoreId;
use crate::value::{SpecValue, Value};

verus! {

/// The eight lifecycle points around the CRUD operations.
#[derive(Clone, Copy, Debug, PartialEq, Eq, Structural)]
pub enum HookPosition {
    PreCreate,
    PostCreate,
    PreRetrieve,
    PostRetrieve,
    PreUpdate,
    PostUpdate,
    PreDelete,
    PostDelete,
}

/// A unit of collaborator logic invoked around CRUD operations.
///
/// An implementor describes its own behaviour with the spec functions and
/// proves that its two access methods follow them; the store's contracts then
/// say exactly which hooks ran, in which order, and what they did.
pub trait Hook: Sized {
    /// The name this hook is configured under.
    spec fn spec_hook_name(&self) -> Seq<char>;

    /// How this hook absorbs a configuration section.
    spec fn with_config(&self, config: SpecValue) -> Self;

    /// Whether this hook accepts the identifier.
    spec fn id_ok(&self, id: Seq<char>) -> bool;

    /// The error kind this hook reports for a rejected identifier.
    spec fn id_err_kind(&self, id: Seq<char>) -> StoreErrorKind;

    /// How this hook rewrites an entry it is given mutable access to.
    spec fn entry_map(&self, e: SpecEntry) -> SpecEntry;

    /// Whether this hook accepts the entry it was given.
    spec fn entry_ok(&self, e: SpecEntry) -> bool;

    /// The error kind this hook reports for a rejected entry.
    spec fn entry_err_kind(&self, e: SpecEntry) -> StoreErrorKind;

    /// The name under which per-hook configuration is looked up.
    fn hook_name(&self) -> (r: String)
        ensures
            r@ == self.spec_hook_name(),
    ;

    /// Hands the hook its configuration section.
    fn set_config(&mut self, config: &Value)
        ensures
            *final(self) == old(self).with_config(config@),
    ;

    /// Identifier-only access.
    fn access_id(&self, id: &StoreId) -> (r: Result<(), StoreError>)
        ensures
            r is Ok <==> self.id_ok(id@),
            r matches Err(e) ==> e.spec_kind() == self.id_err_kind(id@),
    ;

    /// Mutable-entry access: the hook may rewrite the entry, then passes its
    /// verdict.
    fn access_mut(&self, e: &mut Entry) -> (r: Result<(), StoreError>)
        ensures
            final(e)@ == self.entry_map(old(e)@),
            r is Ok <==> self.entry_ok(old(e)@),
            r matches Err(err) ==> err.spec_kind() == self.entry_err_kind(old(e)@),
    ;
}

/// A hook that accepts everything and changes nothing.
pub struct NoopHook;

impl Hook for NoopHook {
    open spec fn spec_hook_name(&self) -> Seq<char> {
        Seq::empty()
    }

    open spec fn with_config(&self, config: SpecValue) -> NoopHook {
        NoopHook
    }

    open spec fn id_ok(&self, id: Seq<char>) -> bool {
        true
    }

    open spec fn id_err_kind(&self, id: Seq<char>) -> StoreErrorKind {
        StoreErrorKind::HookExecutionError
    }

    open spec fn entry_map(&self, e: SpecEntry) -> SpecEntry {
        e
    }

    open spec fn entry_ok(&self, e: SpecEntry) -> bool {
        true
    }

    open spec fn entry_err_kind(&self, e: SpecEntry) -> StoreErrorKind {
        StoreErrorKind::HookExecutionError
    }

    fn hook_name(&self) -> (r: String) {
        String::new()
    }

    fn set_config(&mut self, config: &Value) {
        proof {
            assert(*self =~= NoopHook);
        }
    }

    fn access_id(&self, id: &StoreId) -> (r: Result<(), StoreError>) {
        Ok(())
    }

    fn access_mut(&self, e: &mut Entry) -> (r: Result<(), StoreError>) {
        Ok(())
    }
}

/// A named, ordered list of hooks bound to one lifecycle point.
pub struct Aspect<H> {
    name: String,
    hooks: Vec<H>,
}

impl<H: Hook> Aspect<H> {
    /// The name of this aspect.
    pub closed spec fn spec_name(&self) -> Seq<char> {
        self.name@
    }

    /// The hooks of this aspect, in registration order.
    pub closed spec fn spec_hooks(&self) -> Seq<H> {
        self.hooks@
    }

    /// A fresh aspect with no hooks.
    pub fn new(name: String) -> (r: Aspect<H>)
        ensures
            r.spec_name() == name@,
            r.spec_hooks() == Seq::<H>::empty(),
    {
        Aspect { name: name, hooks: Vec::new() }
    }

    /// The name of this aspect.
    pub fn name(&self) -> (r: &String)
        ensures
            r@ == self.spec_name(),
    {
        &self.name
    }

    /// Appends a hook to this aspect.
    pub fn register_hook(&mut self, h: H)
        ensures
            final(self).spec_name() == old(self).spec_name(),
            final(self).spec_hooks() == old(self).spec_hooks().push(h),
    {
        self.hooks.push(h);
    }
}

/// All hooks of a list of aspects, flattened in order.
pub open spec fn aspect_hooks<H: Hook>(aspects: Seq<Aspect<H>>) -> Seq<H>
    decreases aspects.len(),
{
    if aspects.len() == 0 {
        Seq::empty()
    } else {
        aspects[0].spec_hooks() + aspect_hooks(aspects.drop_first())
    }
}

/// The error kind of the first hook that rejects `id`, if any; hooks are
/// asked in order.
pub open spec fn id_run_error<H: Hook>(hooks: Seq<H>, id: Seq<char>) -> Option<StoreErrorKind>
    decreases hooks.len(),
{
    if hooks.len() == 0 {
        None
    } else if !hooks[0].id_ok(id) {
        Some(hooks[0].id_err_kind(id))
    } else {
        id_run_error(hooks.drop_first(), id)
    }
}

/// The entry after running the hooks in order on it, stopping after the first
/// hook that rejects (its rewrite still applies).
pub open spec fn apply_entry_hooks<H: Hook>(hooks: Seq<H>, e: SpecEntry) -> SpecEntry
    decreases hooks.len(),
{
    if hooks.len() == 0 {
        e
    } else if !hooks[0].entry_ok(e) {
        hooks[0].entry_map(e)
    } else {
        apply_entry_hooks(hooks.drop_first(), hooks[0].entry_map(e))
    }
}

/// The error kind of the first hook that rejects the (successively rewritten)
/// entry, if any.
pub open spec fn entry_run_error<H: Hook>(hooks: Seq<H>, e: SpecEntry) -> Option<StoreErrorKind>
    decreases hooks.len(),
{
    if hooks.len() == 0 {
        None
    } else if !hooks[0].entry_ok(e) {
        Some(hooks[0].entry_err_kind(e))
    } else {
        entry_run_error(hooks.drop_first(), hooks[0].entry_map(e))
    }
}

/// Splitting a hook list: the first failure of the whole list is the first
/// failure of the front, or else of the back.
pub proof fn lemma_id_run_error_append<H: Hook>(h1: Seq<H>, h2: Seq<H>, id: Seq<char>)
    ensures
        id_run_error(h1 + h2, id) == (match id_run_error(h1, id) {
            Some(k) => Some(k),
            None => id_run_error(h2, id),
        }),
    decreases h1.len(),
{
    if h1.len() == 0 {
        assert(h1 + h2 =~= h2);
    } else {
        assert((h1 + h2).drop_first() =~= h1.drop_first() + h2);
        lemma_id_run_error_append(h1.drop_first(), h2, id);
    }
}

/// Splitting a hook list: the whole run rewrites by the front, then by the
/// back — unless the front already failed, in which case the back never runs.
pub proof fn lemma_entry_run_append<H: Hook>(h1: Seq<H>, h2: Seq<H>, e: SpecEntry)
    ensures
        entry_run_error(h1, e) is None ==> apply_entry_hooks(h1 + h2, e) == apply_entry_hooks(
            h2,
            apply_entry_hooks(h1, e),
        ),
        entry_run_error(h1, e) is Some ==> apply_entry_hooks(h1 + h2, e) == apply_entry_hooks(
            h1,
            e,
        ),
        entry_run_error(h1 + h2, e) == (match entry_run_error(h1, e) {
            Some(k) => Some(k),
            None => entry_run_error(h2, apply_entry_hooks(h1, e)),
        }),
    decreases h1.len(),
{
    if h1.len() == 0 {
        assert(h1 + h2 =~= h2);
    } else {
        assert((h1 + h2).drop_first() =~= h1.drop_first() + h2);
        lemma_entry_run_append(h1.drop_first(), h2, h1[0].entry_map(e));
    }
}

/// A hook list whose hooks all accept `id` reports no failure, and the first
/// rejecting hook's kind is reported when one exists.  This is the ordering
/// guarantee of the identifier pipeline, written out.
pub proof fn lemma_id_run_first_failure<H: Hook>(hooks: Seq<H>, id: Seq<char>, k: int)
    requires
        0 <= k < hooks.len(),
        !hooks[k].id_ok(id),
        forall|j: int| 0 <= j < k ==> (#[trigger] hooks[j]).id_ok(id),
    ensures
        id_run_error(hooks, id) == Some(hooks[k].id_err_kind(id)),
    decreases k,
{
    if k > 0 {
        assert forall|j: int| 0 <= j < k - 1 implies (#[trigger] hooks.drop_first()[j]).id_ok(id)
        by {
            assert(hooks.drop_first()[j] == hooks[j + 1]);
        }
        lemma_id_run_first_failure(hooks.drop_first(), id, k - 1);
    }
}


/// The ordering guarantee of the entry pipeline, written out: when every hook
/// before position `k` accepts the entry it is handed, and the hook at `k`
/// rejects its own, the pipeline's result carries exactly the rewrites of the
/// hooks up to and including `k`, and the reported failure is hook `k`'s.
pub proof fn lemma_entry_run_first_failure<H: Hook>(hooks: Seq<H>, e: SpecEntry, k: int)
    requires
        0 <= k < hooks.len(),
        entry_run_error(hooks.take(k), e) is None,
        !hooks[k].entry_ok(apply_entry_hooks(hooks.take(k), e)),
    ensures
        entry_run_error(hooks, e) == Some(
            hooks[k].entry_err_kind(apply_entry_hooks(hooks.take(k), e)),
        ),
        apply_entry_hooks(hooks, e) == hooks[k].entry_map(apply_entry_hooks(hooks.take(k), e)),
{
    let front = hooks.take(k);
    let back = hooks.skip(k);
    assert(hooks =~= front + back);
    lemma_entry_run_append(front, back, e);
    let mid = apply_entry_hooks(front, e);
    assert(back[0] == hooks[k]);
    assert(back.drop_first() =~= hooks.skip(k + 1));
}

/// Runs the identifier hooks of every aspect, in order, stopping at the
/// first failure and returning that hook's error.
#[verifier::loop_isolation(false)]
pub fn run_id_hooks<H: Hook>(aspects: &Vec<Aspect<H>>, id: &StoreId) -> (r: Result<(), StoreError>)
    ensures
        r is Ok <==> id_run_error(aspect_hooks(aspects@), id@) is None,
        r matches Err(e) ==> Some(e.spec_kind()) == id_run_error(aspect_hooks(aspects@), id@),
{
    let ghost all = aspect_hooks(aspects@);
    proof {
        assert(aspects@.skip(0) =~= aspects@);
    }
    let mut ai: usize = 0;
    while ai < aspects.len()
        invariant
            0 <= ai <= aspects@.len(),
            id_run_error(all, id@) == id_run_error(aspect_hooks(aspects@.skip(ai as int)), id@),
        decreases aspects@.len() - ai,
    {
        let a = &aspects[ai];
        let ghost rest = aspect_hooks(aspects@.skip(ai as int + 1));
        proof {
            assert(aspects@.skip(ai as int)[0] == aspects@[ai as int]);
            assert(aspects@.skip(ai as int).drop_first() =~= aspects@.skip(ai as int + 1));
            lemma_id_run_error_append(a.spec_hooks(), rest, id@);
        }
        let hooks = a.hooks_ref();
        proof {
            assert(a.spec_hooks().skip(0) =~= a.spec_hooks());
        }
        let mut hi: usize = 0;
        while hi < hooks.len()
            invariant
                0 <= hi <= hooks@.len(),
                hooks@ == a.spec_hooks(),
                id_run_error(a.spec_hooks(), id@) == id_run_error(
                    a.spec_hooks().skip(hi as int),
                    id@,
                ),
            decreases hooks@.len() - hi,
        {
            proof {
                assert(a.spec_hooks().skip(hi as int)[0] == a.spec_hooks()[hi as int]);
                assert(a.spec_hooks().skip(hi as int).drop_first() =~= a.spec_hooks().skip(
                    hi as int + 1,
                ));
            }
            match hooks[hi].access_id(id) {
                Ok(_) => {},
                Err(e) => {
                    return Err(e);
                },
            }
            hi = hi + 1;
        }
        proof {
            assert(a.spec_hooks().skip(a.spec_hooks().len() as int) =~= Seq::<H>::empty());
        }
        ai = ai + 1;
    }
    proof {
        assert(aspects@.skip(aspects@.len() as int) =~= Seq::<Aspect<H>>::empty());
    }
    Ok(())
}

/// Runs the entry hooks of every aspect, in order, on the entry, stopping at
/// the first failure and returning that hook's error.  The entry carries the
/// rewrites of every hook that ran, the failing one included.
#[verifier::loop_isolation(false)]
pub fn run_entry_hooks<H: Hook>(aspects: &Vec<Aspect<H>>, e: &mut Entry) -> (r: Result<
    (),
    StoreError,
>)
    ensures
        final(e)@ == apply_entry_hooks(aspect_hooks(aspects@), old(e)@),
        r is Ok <==> entry_run_error(aspect_hooks(aspects@), old(e)@) is None,
        r matches Err(err) ==> Some(err.spec_kind()) == entry_run_error(
            aspect_hooks(aspects@),
            old(e)@,
        ),
{
    let ghost all = aspect_hooks(aspects@);
    let ghost e0 = old(e)@;
    proof {
        assert(aspects@.skip(0) =~= aspects@);
    }
    let mut ai: usize = 0;
    while ai < aspects.len()
        invariant
            0 <= ai <= aspects@.len(),
            entry_run_error(all, e0) == entry_run_error(
                aspect_hooks(aspects@.skip(ai as int)),
                e@,
            ),
            apply_entry_hooks(all, e0) == apply_entry_hooks(
                aspect_hooks(aspects@.skip(ai as int)),
                e@,
            ),
        decreases aspects@.len() - ai,
    {
        let a = &aspects[ai];
        let ghost rest = aspect_hooks(aspects@.skip(ai as int + 1));
        proof {
            assert(aspects@.skip(ai as int)[0] == aspects@[ai as int]);
            assert(aspects@.skip(ai as int).drop_first() =~= aspects@.skip(ai as int + 1));
            lemma_entry_run_append(a.spec_hooks(), rest, e@);
        }
        let ghost ea = e@;
        let hooks = a.hooks_ref();
        proof {
            assert(a.spec_hooks().skip(0) =~= a.spec_hooks());
        }
        let mut hi: usize = 0;
        while hi < hooks.len()
            invariant
                0 <= hi <= hooks@.len(),
                hooks@ == a.spec_hooks(),
                entry_run_error(a.spec_hooks(), ea) == entry_run_error(
                    a.spec_hooks().skip(hi as int),
                    e@,
                ),
                apply_entry_hooks(a.spec_hooks(), ea) == apply_entry_hooks(
                    a.spec_hooks().skip(hi as int),
                    e@,
                ),
            decreases hooks@.len() - hi,
        {
            proof {
                assert(a.spec_hooks().skip(hi as int)[0] == a.spec_hooks()[hi as int]);
                assert(a.spec_hooks().skip(hi as int).drop_first() =~= a.spec_hooks().skip(
                    hi as int + 1,
                ));
            }
            match hooks[hi].access_mut(e) {
                Ok(_) => {},
                Err(err) => {
                    return Err(err);
                },
            }
            hi = hi + 1;
        }
        proof {
            assert(a.spec_hooks().skip(a.spec_hooks().len() as int) =~= Seq::<H>::empty());
            lemma_entry_run_append(a.spec_hooks(), rest, ea);
        }
        ai = ai + 1;
    }
    proof {
        assert(aspects@.skip(aspects@.len() as int) =~= Seq::<Aspect<H>>::empty());
    }
    Ok(())
}

impl<H: Hook> Aspect<H> {
    /// The hooks of this aspect.
    fn hooks_ref(&self) -> (r: &Vec<H>)
        ensures
            r@ == self.spec_hooks(),
    {
        &self.hooks
    }
}

} // verus!
