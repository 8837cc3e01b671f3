//! Completion of a bare name: the builtins of the current mode that the caller
//! accepts and that no local binding shadows, then the local bindings.
use vstd::prelude::*;
use vstd::string::StringExecFns;
use crate::bindings::{ascent, lemma_unresolved_import_invisible, without_unresolved_import, lemma_first_wins_shape, binding_views, collect_bindings, contains_name, has_name, local_bindings, BindingView};
use crate::model::{
    kind_of_value, value_kind, views, Completion, CompletionContext, CompletionKind, CompletionView,
    NodeKind, SyntaxTree, Value, World, CALL_TEMPLATE, TRIGGER_SUGGEST,
};

verus! {

/// The leaf's parent is part of a formula: completion draws on the math scope.
pub open spec fn in_math(t: SyntaxTree, leaf: int) -> bool {
    match t.nodes@[leaf].parent {
        Some(p) => (p as int) < t.nodes@.len() && (t.nodes@[p as int].kind is Equation
            || t.nodes@[p as int].kind is Math || t.nodes@[p as int].kind is MathFrac
            || t.nodes@[p as int].kind is MathAttach),
        None => false,
    }
}

pub open spec fn builtin_scope(w: World, math: bool) -> Seq<(String, Value)> {
    if math {
        w.math@
    } else {
        w.global@
    }
}

/// An entry for a name of the given kind; a function, where `call` is set,
/// is inserted as a call and reopens the suggestions.
pub open spec fn named_entry(name: Seq<char>, kind: CompletionKind, call: bool) -> CompletionView {
    if kind == CompletionKind::Func && call {
        CompletionView {
            kind,
            label: name,
            apply: Some(name + CALL_TEMPLATE@),
            detail: None,
            command: Some(TRIGGER_SUGGEST@),
        }
    } else {
        CompletionView { kind, label: name, apply: None, detail: None, command: None }
    }
}

/// The entry for a builtin value.
pub open spec fn value_entry(name: Seq<char>, v: Value, parens: bool) -> CompletionView {
    named_entry(name, value_kind(v), parens)
}

/// The entry for a local binding.
pub open spec fn local_entry(b: BindingView) -> CompletionView {
    named_entry(b.0, b.1, true)
}

/// The entries for the builtins of `scope`: those that the filter accepted
/// (`acc`, one decision per builtin), with a name that is not empty and not a
/// local binding.
pub open spec fn builtin_entries(
    scope: Seq<(String, Value)>,
    acc: Seq<bool>,
    locals: Seq<BindingView>,
    parens: bool,
) -> Seq<CompletionView>
    decreases scope.len(),
{
    if scope.len() == 0 {
        seq![]
    } else {
        let e = scope.last();
        builtin_entries(scope.drop_last(), acc.drop_last(), locals, parens) + if acc.last() && e.0@.len()
            > 0 && !has_name(locals, e.0@) {
            seq![value_entry(e.0@, e.1, parens)]
        } else {
            seq![]
        }
    }
}

pub open spec fn local_entries(locals: Seq<BindingView>) -> Seq<CompletionView> {
    locals.map_values(|b: BindingView| local_entry(b))
}

/// What a bare-name completion at the context's cursor appends, given the
/// filter's decision on each builtin of the mode's scope.
pub open spec fn scope_entries(ctx: CompletionContext, acc: Seq<bool>, parens: bool) -> Seq<
    CompletionView,
> {
    builtin_entries(
        builtin_scope(ctx.world, in_math(ctx.tree, ctx.leaf as int)),
        acc,
        local_bindings(ctx.tree, ctx.leaf as int),
        parens,
    ) + local_entries(local_bindings(ctx.tree, ctx.leaf as int))
}

/// The filter's decisions on the builtins of `scope`, one per builtin.
pub open spec fn filter_decisions<F: Fn(&Value) -> bool>(
    filter: F,
    scope: Seq<(String, Value)>,
    acc: Seq<bool>,
) -> bool {
    acc.len() == scope.len() && forall|i: int|
        0 <= i < acc.len() ==> filter.ensures((&scope[i].1,), #[trigger] acc[i])
}

fn entry_for(name: &String, kind: CompletionKind, call: bool) -> (r: Completion)
    ensures
        r@ == named_entry(name@, kind, call),
{
    if kind == CompletionKind::Func && call {
        let apply = name.clone().concat(CALL_TEMPLATE);
        Completion {
            kind,
            label: name.clone(),
            apply: Some(apply),
            detail: None,
            command: Some(String::from_str(TRIGGER_SUGGEST)),
        }
    } else {
        Completion { kind, label: name.clone(), apply: None, detail: None, command: None }
    }
}

fn leaf_in_math(t: &SyntaxTree, leaf: usize) -> (r: bool)
    requires
        leaf < t.nodes@.len(),
    ensures
        r == in_math(*t, leaf as int),
{
    match t.nodes[leaf].parent {
        Some(p) => p < t.nodes.len() && match t.nodes[p].kind {
            NodeKind::Equation | NodeKind::Math | NodeKind::MathFrac | NodeKind::MathAttach => true,
            _ => false,
        },
        None => false,
    }
}

impl CompletionContext {
    /// Adds completions for the definitions available at the cursor: the
    /// builtins of the cursor's mode that `filter` accepts and that no local
    /// binding shadows, then the local bindings.
    pub fn scope_completions_<F: Fn(&Value) -> bool>(&mut self, parens: bool, filter: F)
        requires
            old(self).tree.wf(),
            old(self).leaf < old(self).tree.nodes@.len(),
            forall|v: Value| filter.requires((&v,)),
        ensures
            final(self).same_request(&*old(self)),
            exists|acc: Seq<bool>|
                filter_decisions(
                    filter,
                    builtin_scope(old(self).world, in_math(old(self).tree, old(self).leaf as int)),
                    acc,
                ) && views(final(self).completions@) == views(old(self).completions@)
                    + scope_entries(*old(self), acc, parens),
    {
        let ghost start = *self;
        let defined = collect_bindings(&self.tree, self.leaf);
        let ghost locals = local_bindings(self.tree, self.leaf as int);
        let ghost old_c = views(self.completions@);
        let math = leaf_in_math(&self.tree, self.leaf);
        let scope = if math {
            &self.world.math
        } else {
            &self.world.global
        };
        let ghost mut acc: Seq<bool> = seq![];
        let mut i: usize = 0;
        assert(old_c + seq![] =~= old_c);
        while i < scope.len()
            invariant
                i <= scope@.len(),
                self.same_request(&start),
                *scope == if math { self.world.math } else { self.world.global },
                binding_views(defined@) == locals,
                filter_decisions(filter, scope@.subrange(0, i as int), acc),
                forall|v: Value| filter.requires((&v,)),
                views(self.completions@) == old_c + builtin_entries(
                    scope@.subrange(0, i as int),
                    acc,
                    locals,
                    parens,
                ),
            decreases scope@.len() - i,
        {
            let v = scope[i].1;
            let ok = filter(&v);
            let name = &scope[i].0;
            let ghost before = views(self.completions@);
            if ok && name.as_str().unicode_len() > 0 && !contains_name(&defined, name) {
                let e = entry_for(name, kind_of_value(v), parens);
                self.completions.push(e);
                assert(views(self.completions@) =~= before.push(e@));
            } else {
                assert(views(self.completions@) =~= before);
            }
            proof {
                let s1 = scope@.subrange(0, i + 1);
                assert(s1.drop_last() =~= scope@.subrange(0, i as int));
                assert(acc.push(ok).drop_last() =~= acc);
                acc = acc.push(ok);
            }
            i += 1;
        }
        assert(scope@.subrange(0, scope@.len() as int) =~= scope@);
        let ghost mid = views(self.completions@);
        let mut j: usize = 0;
        while j < defined.len()
            invariant
                j <= defined@.len(),
                self.same_request(&start),
                binding_views(defined@) == locals,
                views(self.completions@) == mid + local_entries(locals.subrange(0, j as int)),
            decreases defined@.len() - j,
        {
            let e = entry_for(&defined[j].0, defined[j].1, true);
            let ghost before = views(self.completions@);
            self.completions.push(e);
            assert(local_entries(locals.subrange(0, j + 1)) =~= local_entries(
                locals.subrange(0, j as int),
            ).push(local_entry(locals[j as int])));
            assert(views(self.completions@) =~= before.push(e@));
            j += 1;
        }
        assert(locals.subrange(0, locals.len() as int) =~= locals);
        assert(views(self.completions@) =~= old_c + scope_entries(*old(self), acc, parens));
    }
}

/// No builtin entry carries a name that is bound locally.
pub proof fn lemma_builtins_skip_locals(
    scope: Seq<(String, Value)>,
    acc: Seq<bool>,
    locals: Seq<BindingView>,
    parens: bool,
    x: Seq<char>,
)
    requires
        has_name(locals, x),
    ensures
        forall|i: int|
            0 <= i < builtin_entries(scope, acc, locals, parens).len() ==> (#[trigger] builtin_entries(
                scope,
                acc,
                locals,
                parens,
            )[i]).label != x,
    decreases scope.len(),
{
    if scope.len() > 0 {
        lemma_builtins_skip_locals(scope.drop_last(), acc.drop_last(), locals, parens, x);
        let prev = builtin_entries(scope.drop_last(), acc.drop_last(), locals, parens);
        let cur = builtin_entries(scope, acc, locals, parens);
        assert forall|i: int| 0 <= i < cur.len() implies (#[trigger] cur[i]).label != x by {
            if i < prev.len() {
                assert(cur[i] == prev[i]);
            }
        }
    }
}

/// Shadow over builtins: a name bound locally gets exactly one entry in a
/// bare-name completion, the local binding's.
pub proof fn lemma_shadow_over_builtin(ctx: CompletionContext, acc: Seq<bool>, parens: bool, x: Seq<char>)
    requires
        has_name(local_bindings(ctx.tree, ctx.leaf as int), x),
    ensures
        ({
            let e = scope_entries(ctx, acc, parens);
            let locals = local_bindings(ctx.tree, ctx.leaf as int);
            exists|k: int, l: int|
                0 <= k < e.len() && 0 <= l < locals.len() && locals[l].0 == x && #[trigger] e[k]
                    == local_entry(#[trigger] locals[l]) && forall|j: int|
                    0 <= j < e.len() && #[trigger] e[j].label == x ==> j == k
        }),
{
    let locals = local_bindings(ctx.tree, ctx.leaf as int);
    let scope = builtin_scope(ctx.world, in_math(ctx.tree, ctx.leaf as int));
    let b = builtin_entries(scope, acc, locals, parens);
    let l_e = local_entries(locals);
    let e = scope_entries(ctx, acc, parens);
    lemma_builtins_skip_locals(scope, acc, locals, parens, x);
    lemma_first_wins_shape(ascent(ctx.tree, ctx.leaf as int));
    let l = choose|l: int| 0 <= l < locals.len() && #[trigger] locals[l].0 == x;
    let k = b.len() + l;
    assert(e[k] == l_e[l]);
    assert forall|j: int| 0 <= j < e.len() && #[trigger] e[j].label == x implies j == k by {
        if j < b.len() {
            assert(e[j] == b[j]);
        } else {
            assert(e[j] == l_e[j - b.len()]);
            let m = j - b.len();
            if m < l {
                assert(locals[m].0 != locals[l].0);
            } else if m > l {
                assert(locals[l].0 != locals[m].0);
            }
        }
    }
    assert(0 <= k < e.len() && 0 <= l < locals.len() && locals[l].0 == x && e[k] == local_entry(locals[l]));
}

/// Mode sensitivity: inside a formula the builtins are drawn from the math
/// scope, elsewhere from the global one; with no local bindings they are all
/// that a bare-name completion offers.
pub proof fn lemma_mode_sensitivity(ctx: CompletionContext, acc: Seq<bool>, parens: bool)
    ensures
        ({
            let locals = local_bindings(ctx.tree, ctx.leaf as int);
            let scope = if in_math(ctx.tree, ctx.leaf as int) {
                ctx.world.math@
            } else {
                ctx.world.global@
            };
            &&& scope_entries(ctx, acc, parens) == builtin_entries(scope, acc, locals, parens)
                + local_entries(locals)
            &&& locals.len() == 0 ==> scope_entries(ctx, acc, parens) == builtin_entries(
                scope,
                acc,
                locals,
                parens,
            )
        }),
{
    let locals = local_bindings(ctx.tree, ctx.leaf as int);
    let scope = builtin_scope(ctx.world, in_math(ctx.tree, ctx.leaf as int));
    if locals.len() == 0 {
        assert(local_entries(locals) =~= seq![]);
        assert(builtin_entries(scope, acc, locals, parens) + local_entries(locals) =~= builtin_entries(
            scope,
            acc,
            locals,
            parens,
        ));
    }
}

/// Silent misses: a bare-name completion gives the same entries with an
/// import that did not resolve as without it; every other local and builtin
/// is still offered.
pub proof fn lemma_unresolved_import_completions(
    ctx: CompletionContext,
    ctx2: CompletionContext,
    d: int,
    acc: Seq<bool>,
    parens: bool,
)
    requires
        without_unresolved_import(ctx.tree, ctx2.tree, d),
        ctx2.world == ctx.world,
        ctx2.leaf == ctx.leaf,
        ctx.leaf < ctx.tree.nodes@.len(),
    ensures
        scope_entries(ctx, acc, parens) == scope_entries(ctx2, acc, parens),
{
    let t = ctx.tree;
    let t2 = ctx2.tree;
    let leaf = ctx.leaf as int;
    lemma_unresolved_import_invisible(t, t2, d, leaf);
    if leaf != d {
        assert(t2.nodes@[leaf] == t.nodes@[leaf]);
    }
    match t.nodes@[leaf].parent {
        Some(p) => if (p as int) < t.nodes@.len() && p as int != d {
            assert(t2.nodes@[p as int] == t.nodes@[p as int]);
        },
        None => {},
    }
    assert(in_math(t, leaf) == in_math(t2, leaf));
}

} // verus!
