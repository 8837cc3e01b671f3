//! The names declared around a cursor: a walk from the cursor's leaf to the
//! root that visits, at each level, the node and its earlier siblings, and then
//! what the parent binds for its children.
use vstd::prelude::*;
use crate::model::{
    kind_of_value, points_below, value_kind, CompletionKind, NodeKind, Param, ResolvedModule, SyntaxTree, Value,
};

verus! {

/// A name with the kind of entry it gets.
pub type BindingView = (Seq<char>, CompletionKind);

pub open spec fn names_as(names: Seq<String>, kind: CompletionKind) -> Seq<BindingView> {
    names.map_values(|s: String| (s@, kind))
}

pub open spec fn exports_of(scope: Seq<(String, Value)>) -> Seq<BindingView> {
    scope.map_values(|e: (String, Value)| (e.0@, value_kind(e.1)))
}

pub open spec fn let_kind(closure: bool) -> CompletionKind {
    if closure {
        CompletionKind::Func
    } else {
        CompletionKind::Variable
    }
}

/// What an import binds: the module's name without an import list, its
/// exports with one, and nothing where it did not resolve.
pub open spec fn import_bindings(has_imports: bool, resolved: Option<ResolvedModule>) -> Seq<
    BindingView,
> {
    match resolved {
        None => seq![],
        Some(m) => if !has_imports {
            match m.name {
                Some(n) => seq![(n@, CompletionKind::Module)],
                None => seq![],
            }
        } else {
            match m.scope {
                Some(s) => exports_of(s@),
                None => seq![],
            }
        },
    }
}

/// What a node binds for the nodes after it.
pub open spec fn sibling_bindings(k: NodeKind) -> Seq<BindingView> {
    match k {
        NodeKind::LetBinding { closure, bindings } => names_as(bindings@, let_kind(closure)),
        NodeKind::ModuleImport { has_imports, resolved } => import_bindings(has_imports, resolved),
        _ => seq![],
    }
}

pub open spec fn param_bindings(p: Param) -> Seq<BindingView> {
    match p {
        Param::Pos(ids) => names_as(ids@, CompletionKind::Variable),
        Param::Named(n) => seq![(n@, CompletionKind::Variable)],
        Param::Spread(s) => match s {
            Some(n) => seq![(n@, CompletionKind::Variable)],
            None => seq![],
        },
    }
}

pub open spec fn params_bindings(ps: Seq<Param>) -> Seq<BindingView>
    decreases ps.len(),
{
    if ps.len() == 0 {
        seq![]
    } else {
        params_bindings(ps.drop_last()) + param_bindings(ps.last())
    }
}

/// The node comes right after an `in` keyword: it is a loop's iterable.
pub open spec fn follows_in(t: SyntaxTree, a: int) -> bool {
    match t.nodes@[a].prev {
        Some(s) => (s as int) < t.nodes@.len() && t.nodes@[s as int].kind is In,
        None => false,
    }
}

/// What the parent `p` binds for its child `a`: a loop's pattern for all but
/// the iterable, a function literal's parameters.
pub open spec fn parent_bindings(t: SyntaxTree, a: int, p: int) -> Seq<BindingView> {
    match t.nodes@[p].kind {
        NodeKind::ForLoop { pattern } => if follows_in(t, a) {
            seq![]
        } else {
            names_as(pattern@, CompletionKind::Variable)
        },
        NodeKind::Closure { params } => params_bindings(params@),
        _ => seq![],
    }
}

/// The bindings of a node and of its earlier siblings, nearest first.
pub open spec fn sibling_chain(t: SyntaxTree, s: int) -> Seq<BindingView>
    decreases s,
{
    if 0 <= s < t.nodes@.len() {
        sibling_bindings(t.nodes@[s].kind) + match t.nodes@[s].prev {
            Some(q) => if (q as int) < s {
                sibling_chain(t, q as int)
            } else {
                seq![]
            },
            None => seq![],
        }
    } else {
        seq![]
    }
}

/// Every binding met on the walk from node `a` to the root, in the order met.
pub open spec fn ascent(t: SyntaxTree, a: int) -> Seq<BindingView>
    decreases a, 1int,
{
    if 0 <= a < t.nodes@.len() {
        sibling_chain(t, a) + ascent_above(t, a)
    } else {
        seq![]
    }
}

/// The part of the walk from node `a` that follows its siblings.
pub open spec fn ascent_above(t: SyntaxTree, a: int) -> Seq<BindingView>
    decreases a, 0int,
{
    if 0 <= a < t.nodes@.len() {
        match t.nodes@[a].parent {
            Some(p) => if (p as int) < a {
                parent_bindings(t, a, p as int) + ascent(t, p as int)
            } else {
                seq![]
            },
            None => seq![],
        }
    } else {
        seq![]
    }
}

pub open spec fn has_name(d: Seq<BindingView>, n: Seq<char>) -> bool {
    exists|i: int| 0 <= i < d.len() && #[trigger] d[i].0 == n
}

/// Records a binding unless its name is empty or already recorded.
pub open spec fn record(d: Seq<BindingView>, b: BindingView) -> Seq<BindingView> {
    if b.0.len() == 0 || has_name(d, b.0) {
        d
    } else {
        d.push(b)
    }
}

/// Records the bindings of `s` in order: the first write of a name wins.
pub open spec fn record_all(d: Seq<BindingView>, s: Seq<BindingView>) -> Seq<BindingView>
    decreases s.len(),
{
    if s.len() == 0 {
        d
    } else {
        record(record_all(d, s.drop_last()), s.last())
    }
}

pub open spec fn first_wins(s: Seq<BindingView>) -> Seq<BindingView> {
    record_all(seq![], s)
}

/// The local bindings visible at the leaf, one per name, in the order found.
pub open spec fn local_bindings(t: SyntaxTree, leaf: int) -> Seq<BindingView> {
    first_wins(ascent(t, leaf))
}

pub open spec fn binding_views(d: Seq<(String, CompletionKind)>) -> Seq<BindingView> {
    d.map_values(|b: (String, CompletionKind)| (b.0@, b.1))
}

pub proof fn lemma_record_all_push(d: Seq<BindingView>, s: Seq<BindingView>, b: BindingView)
    ensures
        record_all(d, s.push(b)) == record(record_all(d, s), b),
{
    assert(s.push(b).drop_last() =~= s);
}

pub proof fn lemma_record_all_append(d: Seq<BindingView>, s1: Seq<BindingView>, s2: Seq<BindingView>)
    ensures
        record_all(d, s1 + s2) == record_all(record_all(d, s1), s2),
    decreases s2.len(),
{
    if s2.len() == 0 {
        assert(s1 + s2 =~= s1);
    } else {
        assert((s1 + s2).drop_last() =~= s1 + s2.drop_last());
        lemma_record_all_append(d, s1, s2.drop_last());
    }
}

pub(crate) fn contains_name(defined: &Vec<(String, CompletionKind)>, name: &String) -> (r: bool)
    ensures
        r == has_name(binding_views(defined@), name@),
{
    let mut i: usize = 0;
    while i < defined.len()
        invariant
            i <= defined@.len(),
            forall|j: int| 0 <= j < i ==> defined@[j].0@ != name@,
        decreases defined@.len() - i,
    {
        if defined[i].0 == *name {
            assert(binding_views(defined@)[i as int].0 == name@);
            return true;
        }
        i += 1;
    }
    proof {
        if has_name(binding_views(defined@), name@) {
            let j = choose|j: int|
                0 <= j < binding_views(defined@).len() && #[trigger] binding_views(defined@)[j].0
                    == name@;
            assert(defined@[j].0@ == name@);
        }
    }
    false
}

fn try_insert(defined: &mut Vec<(String, CompletionKind)>, name: &String, kind: CompletionKind)
    ensures
        binding_views(final(defined)@) == record(binding_views(old(defined)@), (name@, kind)),
{
    if name.as_str().unicode_len() == 0 {
        return ;
    }
    if contains_name(defined, name) {
        return ;
    }
    defined.push((name.clone(), kind));
    assert(binding_views(defined@) =~= binding_views(old(defined)@).push((name@, kind)));
}

fn record_names(defined: &mut Vec<(String, CompletionKind)>, names: &Vec<String>, kind: CompletionKind)
    ensures
        binding_views(final(defined)@) == record_all(
            binding_views(old(defined)@),
            names_as(names@, kind),
        ),
{
    let ghost d0 = binding_views(defined@);
    let mut i: usize = 0;
    while i < names.len()
        invariant
            i <= names@.len(),
            binding_views(defined@) == record_all(d0, names_as(names@.subrange(0, i as int), kind)),
        decreases names@.len() - i,
    {
        proof {
            assert(names_as(names@.subrange(0, i + 1), kind) =~= names_as(
                names@.subrange(0, i as int),
                kind,
            ).push((names@[i as int]@, kind)));
            lemma_record_all_push(d0, names_as(names@.subrange(0, i as int), kind), (names@[i as int]@, kind));
        }
        try_insert(defined, &names[i], kind);
        i += 1;
    }
    assert(names@.subrange(0, names@.len() as int) =~= names@);
}

fn record_exports(defined: &mut Vec<(String, CompletionKind)>, scope: &Vec<(String, Value)>)
    ensures
        binding_views(final(defined)@) == record_all(binding_views(old(defined)@), exports_of(scope@)),
{
    let ghost d0 = binding_views(defined@);
    let mut i: usize = 0;
    while i < scope.len()
        invariant
            i <= scope@.len(),
            binding_views(defined@) == record_all(d0, exports_of(scope@.subrange(0, i as int))),
        decreases scope@.len() - i,
    {
        let kind = kind_of_value(scope[i].1);
        proof {
            assert(exports_of(scope@.subrange(0, i + 1)) =~= exports_of(
                scope@.subrange(0, i as int),
            ).push((scope@[i as int].0@, kind)));
            lemma_record_all_push(d0, exports_of(scope@.subrange(0, i as int)), (scope@[i as int].0@, kind));
        }
        try_insert(defined, &scope[i].0, kind);
        i += 1;
    }
    assert(scope@.subrange(0, scope@.len() as int) =~= scope@);
}

fn record_import(
    defined: &mut Vec<(String, CompletionKind)>,
    has_imports: bool,
    resolved: &Option<ResolvedModule>,
)
    ensures
        binding_views(final(defined)@) == record_all(
            binding_views(old(defined)@),
            import_bindings(has_imports, *resolved),
        ),
{
    match resolved {
        None => {},
        Some(m) => {
            if !has_imports {
                match &m.name {
                    Some(n) => {
                        try_insert(defined, n, CompletionKind::Module);
                        proof {
                            lemma_record_all_push(binding_views(old(defined)@), seq![], (n@, CompletionKind::Module));
                            assert(seq![].push((n@, CompletionKind::Module)) =~= seq![(n@, CompletionKind::Module)]);
                        }
                    },
                    None => {},
                }
            } else {
                match &m.scope {
                    Some(s) => record_exports(defined, s),
                    None => {},
                }
            }
        },
    }
}

fn record_param(defined: &mut Vec<(String, CompletionKind)>, p: &Param)
    ensures
        binding_views(final(defined)@) == record_all(binding_views(old(defined)@), param_bindings(*p)),
{
    match p {
        Param::Pos(ids) => record_names(defined, ids, CompletionKind::Variable),
        Param::Named(n) => {
            try_insert(defined, n, CompletionKind::Variable);
            proof {
                lemma_record_all_push(binding_views(old(defined)@), seq![], (n@, CompletionKind::Variable));
                assert(seq![].push((n@, CompletionKind::Variable)) =~= seq![(n@, CompletionKind::Variable)]);
            }
        },
        Param::Spread(s) => match s {
            Some(n) => {
                try_insert(defined, n, CompletionKind::Variable);
                proof {
                    lemma_record_all_push(binding_views(old(defined)@), seq![], (n@, CompletionKind::Variable));
                    assert(seq![].push((n@, CompletionKind::Variable)) =~= seq![(n@, CompletionKind::Variable)]);
                }
            },
            None => {},
        },
    }
}

fn record_params(defined: &mut Vec<(String, CompletionKind)>, params: &Vec<Param>)
    ensures
        binding_views(final(defined)@) == record_all(binding_views(old(defined)@), params_bindings(params@)),
{
    let ghost d0 = binding_views(defined@);
    let mut i: usize = 0;
    while i < params.len()
        invariant
            i <= params@.len(),
            binding_views(defined@) == record_all(d0, params_bindings(params@.subrange(0, i as int))),
        decreases params@.len() - i,
    {
        proof {
            let s = params@.subrange(0, i + 1);
            assert(s.drop_last() =~= params@.subrange(0, i as int));
            assert(s.last() == params@[i as int]);
            lemma_record_all_append(d0, params_bindings(params@.subrange(0, i as int)), param_bindings(params@[i as int]));
        }
        record_param(defined, &params[i]);
        i += 1;
    }
    assert(params@.subrange(0, params@.len() as int) =~= params@);
}

fn record_sibling(defined: &mut Vec<(String, CompletionKind)>, k: &NodeKind)
    ensures
        binding_views(final(defined)@) == record_all(binding_views(old(defined)@), sibling_bindings(*k)),
{
    match k {
        NodeKind::LetBinding { closure, bindings } => {
            let kind = if *closure {
                CompletionKind::Func
            } else {
                CompletionKind::Variable
            };
            record_names(defined, bindings, kind);
        },
        NodeKind::ModuleImport { has_imports, resolved } => record_import(defined, *has_imports, resolved),
        _ => {},
    }
}

fn follows_in_keyword(t: &SyntaxTree, a: usize) -> (r: bool)
    requires
        a < t.nodes@.len(),
    ensures
        r == follows_in(*t, a as int),
{
    match t.nodes[a].prev {
        Some(s) => s < t.nodes.len() && matches!(t.nodes[s].kind, NodeKind::In),
        None => false,
    }
}

fn record_parent(defined: &mut Vec<(String, CompletionKind)>, t: &SyntaxTree, a: usize, p: usize)
    requires
        a < t.nodes@.len(),
        p < t.nodes@.len(),
    ensures
        binding_views(final(defined)@) == record_all(binding_views(old(defined)@), parent_bindings(*t, a as int, p as int)),
{
    match &t.nodes[p].kind {
        NodeKind::ForLoop { pattern } => {
            if !follows_in_keyword(t, a) {
                record_names(defined, pattern, CompletionKind::Variable);
            }
        },
        NodeKind::Closure { params } => record_params(defined, params),
        _ => {},
    }
}

/// Collects the local bindings visible at `leaf`: one per name, the nearest
/// declaration of each, in the order the walk meets them.
pub fn collect_bindings(tree: &SyntaxTree, leaf: usize) -> (r: Vec<(String, CompletionKind)>)
    requires
        tree.wf(),
        leaf < tree.nodes@.len(),
    ensures
        binding_views(r@) == local_bindings(*tree, leaf as int),
{
    let mut defined: Vec<(String, CompletionKind)> = Vec::new();
    let ghost mut seen: Seq<BindingView> = seq![];
    let mut ancestor: usize = leaf;
    assert(binding_views(defined@) =~= seq![]);
    assert(seen + ascent(*tree, leaf as int) =~= ascent(*tree, leaf as int));
    loop
        invariant_except_break
            seen + ascent(*tree, ancestor as int) == ascent(*tree, leaf as int),
        invariant
            tree.wf(),
            ancestor < tree.nodes@.len(),
            binding_views(defined@) == first_wins(seen),
        ensures
            binding_views(defined@) == first_wins(ascent(*tree, leaf as int)),
        decreases ancestor,
    {
        let mut sibling: usize = ancestor;
        assert(seen + sibling_chain(*tree, sibling as int) + ascent_above(*tree, ancestor as int)
            =~= ascent(*tree, leaf as int));
        loop
            invariant_except_break
                seen + sibling_chain(*tree, sibling as int) + ascent_above(*tree, ancestor as int)
                    == ascent(*tree, leaf as int),
            invariant
                tree.wf(),
                ancestor < tree.nodes@.len(),
                sibling < tree.nodes@.len(),
                binding_views(defined@) == first_wins(seen),
            ensures
                seen + ascent_above(*tree, ancestor as int) == ascent(*tree, leaf as int),
            decreases sibling,
        {
            let ghost own = sibling_bindings(tree.nodes@[sibling as int].kind);
            let ghost chain = sibling_chain(*tree, sibling as int);
            let ghost rest = chain.subrange(own.len() as int, chain.len() as int);
            assert(points_below(tree.nodes@[sibling as int].parent, sibling as int));
            record_sibling(&mut defined, &tree.nodes[sibling].kind);
            proof {
                lemma_record_all_append(seq![], seen, own);
                assert(seen + chain =~= (seen + own) + rest);
                seen = seen + own;
            }
            match tree.nodes[sibling].prev {
                Some(q) => {
                    assert(q < sibling);
                    assert(rest =~= sibling_chain(*tree, q as int));
                    sibling = q;
                },
                None => {
                    assert(rest =~= seq![]);
                    assert(seen + ascent_above(*tree, ancestor as int) =~= ascent(*tree, leaf as int));
                    break;
                },
            }
        }
        assert(points_below(tree.nodes@[ancestor as int].parent, ancestor as int));
        match tree.nodes[ancestor].parent {
            Some(p) => {
                assert(p < ancestor);
                let ghost up = parent_bindings(*tree, ancestor as int, p as int);
                record_parent(&mut defined, tree, ancestor, p);
                proof {
                    lemma_record_all_append(seq![], seen, up);
                    assert(seen + up + ascent(*tree, p as int) =~= ascent(*tree, leaf as int));
                    seen = seen + up;
                }
                ancestor = p;
            },
            None => {
                assert(seen + ascent_above(*tree, ancestor as int) =~= seen);
                break;
            },
        }
    }
    defined
}

/// No two recorded bindings share a name.
pub open spec fn distinct_names(d: Seq<BindingView>) -> bool {
    forall|i: int, j: int| 0 <= i < j < d.len() ==> #[trigger] d[i].0 != #[trigger] d[j].0
}

pub open spec fn occurs(s: Seq<BindingView>, n: Seq<char>) -> bool {
    exists|i: int| 0 <= i < s.len() && #[trigger] s[i].0 == n
}

/// Recording keeps one binding per name, drops empty names, and records every
/// name that was found.
pub proof fn lemma_first_wins_shape(s: Seq<BindingView>)
    ensures
        distinct_names(first_wins(s)),
        forall|k: int| 0 <= k < first_wins(s).len() ==> (#[trigger] first_wins(s)[k]).0.len() > 0,
        forall|n: Seq<char>| n.len() > 0 ==> (has_name(first_wins(s), n) <==> occurs(s, n)),
    decreases s.len(),
{
    if s.len() > 0 {
        let t = s.drop_last();
        let b = s.last();
        lemma_first_wins_shape(t);
        let prev = first_wins(t);
        let cur = first_wins(s);
        assert(cur == record(prev, b));
        assert forall|n: Seq<char>| n.len() > 0 implies (has_name(cur, n) <==> occurs(s, n)) by {
            if has_name(cur, n) {
                let k = choose|k: int| 0 <= k < cur.len() && #[trigger] cur[k].0 == n;
                if k < prev.len() {
                    assert(cur[k] == prev[k]);
                    assert(has_name(prev, n));
                    assert(occurs(t, n));
                    let i = choose|i: int| 0 <= i < t.len() && #[trigger] t[i].0 == n;
                    assert(s[i] == t[i]);
                } else {
                    assert(s[s.len() - 1].0 == n);
                }
            }
            if occurs(s, n) {
                let i = choose|i: int| 0 <= i < s.len() && #[trigger] s[i].0 == n;
                if i < s.len() - 1 {
                    assert(t[i] == s[i]);
                    assert(occurs(t, n));
                    let k = choose|k: int| 0 <= k < prev.len() && #[trigger] prev[k].0 == n;
                    assert(cur[k] == prev[k]);
                } else if has_name(prev, n) {
                    let k = choose|k: int| 0 <= k < prev.len() && #[trigger] prev[k].0 == n;
                    assert(cur[k] == prev[k]);
                } else {
                    assert(cur[cur.len() - 1].0 == n);
                }
            }
        }
    }
}

/// The binding recorded for a name is the first one found with that name.
pub proof fn lemma_first_wins_first(s: Seq<BindingView>, i: int)
    requires
        0 <= i < s.len(),
        s[i].0.len() > 0,
        forall|j: int| 0 <= j < i ==> #[trigger] s[j].0 != s[i].0,
    ensures
        exists|k: int| 0 <= k < first_wins(s).len() && #[trigger] first_wins(s)[k] == s[i],
    decreases s.len(),
{
    let t = s.drop_last();
    let prev = first_wins(t);
    let cur = first_wins(s);
    assert(cur == record(prev, s.last()));
    if i == s.len() - 1 {
        lemma_first_wins_shape(t);
        if occurs(t, s[i].0) {
            let j = choose|j: int| 0 <= j < t.len() && #[trigger] t[j].0 == s[i].0;
            assert(s[j] == t[j]);
        }
        assert(!has_name(prev, s[i].0));
        assert(cur[cur.len() - 1] == s[i]);
    } else {
        assert forall|j: int| 0 <= j < i implies #[trigger] t[j].0 != t[i].0 by {
            assert(t[j] == s[j]);
        }
        lemma_first_wins_first(t, i);
        let k = choose|k: int| 0 <= k < prev.len() && #[trigger] prev[k] == t[i];
        assert(cur[k] == prev[k]);
    }
}

/// Shadowing: where the cursor leaf comes right after a `let` that binds `x`,
/// the collected bindings hold `x` exactly once, with that declaration's kind,
/// whatever earlier declarations of `x` there are.
pub proof fn lemma_shadowing(t: SyntaxTree, leaf: int, decl: usize, m: int)
    requires
        t.wf(),
        0 <= leaf < t.nodes@.len(),
        t.nodes@[leaf].kind is Other,
        t.nodes@[leaf].prev == Some(decl),
        t.nodes@[decl as int].kind is LetBinding,
        0 <= m < t.nodes@[decl as int].kind->LetBinding_bindings@.len(),
        t.nodes@[decl as int].kind->LetBinding_bindings@[m]@.len() > 0,
    ensures
        ({
            let x = t.nodes@[decl as int].kind->LetBinding_bindings@[m]@;
            let r = local_bindings(t, leaf);
            exists|k: int|
                0 <= k < r.len() && #[trigger] r[k] == (x, let_kind(t.nodes@[decl as int].kind->LetBinding_closure))
                    && forall|j: int| 0 <= j < r.len() && #[trigger] r[j].0 == x ==> j == k
        }),
{
    let names = t.nodes@[decl as int].kind->LetBinding_bindings@;
    let kind = let_kind(t.nodes@[decl as int].kind->LetBinding_closure);
    let x = names[m]@;
    assert(points_below(t.nodes@[leaf].parent, leaf));
    assert(points_below(t.nodes@[leaf].prev, leaf));
    let own = names_as(names, kind);
    let s = ascent(t, leaf);
    assert(sibling_bindings(t.nodes@[decl as int].kind) == own);
    let rest = match t.nodes@[decl as int].prev {
        Some(q) => if (q as int) < decl {
            sibling_chain(t, q as int)
        } else {
            seq![]
        },
        None => seq![],
    };
    assert(sibling_chain(t, decl as int) == own + rest);
    assert(sibling_chain(t, leaf) =~= own + rest);
    assert(s =~= own + (rest + ascent_above(t, leaf)));
    assert(s[m] == own[m]);
    lemma_first_index(s, x, m);
    let i = choose|i: int| 0 <= i <= m && s[i].0 == x && forall|j: int| 0 <= j < i ==> #[trigger] s[j].0 != x;
    assert(s[i] == own[i]);
    assert(own[i] == (names[i]@, kind));
    assert(s[i] == (x, kind));
    lemma_first_wins_first(s, i);
    lemma_first_wins_shape(s);
    let r = first_wins(s);
    let k = choose|k: int| 0 <= k < r.len() && #[trigger] r[k] == s[i];
    assert forall|j: int| 0 <= j < r.len() && #[trigger] r[j].0 == x implies j == k by {
        if j < k {
            assert(r[j].0 != r[k].0);
        } else if j > k {
            assert(r[k].0 != r[j].0);
        }
    }
    assert(r[k] == (x, kind));
    assert(r == local_bindings(t, leaf));
    assert(0 <= k < r.len() && r[k] == (x, kind) && forall|j: int|
        0 <= j < r.len() && #[trigger] r[j].0 == x ==> j == k);
}

/// Where `s[m]` has name `n`, some first binding of `n` lies at or before `m`.
pub proof fn lemma_first_index(s: Seq<BindingView>, n: Seq<char>, m: int)
    requires
        0 <= m < s.len(),
        s[m].0 == n,
    ensures
        exists|i: int| 0 <= i <= m && s[i].0 == n && forall|j: int| 0 <= j < i ==> #[trigger] s[j].0 != n,
    decreases m,
{
    if exists|j: int| 0 <= j < m && #[trigger] s[j].0 == n {
        let j = choose|j: int| 0 <= j < m && #[trigger] s[j].0 == n;
        lemma_first_index(s, n, j);
    } else {
        assert(forall|j: int| 0 <= j < m ==> #[trigger] s[j].0 != n);
    }
}
/// Loop-variable exclusion: walking up from a loop's iterable (the child
/// right after `in`) adds nothing from the loop's pattern; walking up from any
/// other child of the loop adds the pattern's identifiers as variables.
pub proof fn lemma_loop_exclusion(t: SyntaxTree, a: int, f: usize)
    requires
        t.wf(),
        0 <= a < t.nodes@.len(),
        t.nodes@[a].parent == Some(f),
        t.nodes@[f as int].kind is ForLoop,
    ensures
        follows_in(t, a) ==> ascent(t, a) == sibling_chain(t, a) + ascent(t, f as int),
        !follows_in(t, a) ==> ascent(t, a) == sibling_chain(t, a) + names_as(
            t.nodes@[f as int].kind->ForLoop_pattern@,
            CompletionKind::Variable,
        ) + ascent(t, f as int),
{
    assert(points_below(t.nodes@[a].parent, a));
    if follows_in(t, a) {
        assert(parent_bindings(t, a, f as int) =~= seq![]);
        assert(ascent_above(t, a) =~= ascent(t, f as int));
    } else {
        assert(sibling_chain(t, a) + names_as(t.nodes@[f as int].kind->ForLoop_pattern@, CompletionKind::Variable)
            + ascent(t, f as int) =~= sibling_chain(t, a) + ascent_above(t, a));
    }
}

/// Silent misses: an import that did not resolve binds nothing.
pub proof fn lemma_unresolved_import(has_imports: bool)
    ensures
        import_bindings(has_imports, None) == Seq::<BindingView>::empty(),
{
}

/// Shadowing, in general: the nearest binding of a name on the walk, the
/// first one met, is the one collected, and the only one with that name. The
/// walk meets a node before its earlier siblings and a scope before the
/// scopes around it, so a later declaration in a scope hides an earlier one.
pub proof fn lemma_nearest_declaration_wins(t: SyntaxTree, leaf: int, i: int)
    requires
        t.wf(),
        0 <= leaf < t.nodes@.len(),
        0 <= i < ascent(t, leaf).len(),
        ascent(t, leaf)[i].0.len() > 0,
        forall|j: int| 0 <= j < i ==> #[trigger] ascent(t, leaf)[j].0 != ascent(t, leaf)[i].0,
    ensures
        ({
            let s = ascent(t, leaf);
            let r = local_bindings(t, leaf);
            exists|k: int|
                0 <= k < r.len() && #[trigger] r[k] == s[i] && forall|j: int|
                    0 <= j < r.len() && #[trigger] r[j].0 == s[i].0 ==> j == k
        }),
{
    let s = ascent(t, leaf);
    let r = first_wins(s);
    lemma_first_wins_first(s, i);
    lemma_first_wins_shape(s);
    let k = choose|k: int| 0 <= k < r.len() && #[trigger] r[k] == s[i];
    assert forall|j: int| 0 <= j < r.len() && #[trigger] r[j].0 == s[i].0 implies j == k by {
        if j < k {
            assert(r[j].0 != r[k].0);
        } else if j > k {
            assert(r[k].0 != r[j].0);
        }
    }
    assert(r == local_bindings(t, leaf));
    assert(0 <= k < r.len() && r[k] == s[i] && forall|j: int|
        0 <= j < r.len() && #[trigger] r[j].0 == s[i].0 ==> j == k);
}

/// `t2` is `t` with node `d`, an import that did not resolve, replaced by a
/// node that declares nothing, at the same place.
pub open spec fn without_unresolved_import(t: SyntaxTree, t2: SyntaxTree, d: int) -> bool {
    &&& 0 <= d < t.nodes@.len()
    &&& t2.nodes@.len() == t.nodes@.len()
    &&& forall|i: int| 0 <= i < t.nodes@.len() && i != d ==> #[trigger] t2.nodes@[i] == t.nodes@[i]
    &&& t.nodes@[d].kind is ModuleImport
    &&& t.nodes@[d].kind->ModuleImport_resolved is None
    &&& t2.nodes@[d].kind is Other
    &&& t2.nodes@[d].parent == t.nodes@[d].parent
    &&& t2.nodes@[d].prev == t.nodes@[d].prev
}

pub proof fn lemma_sibling_chain_without_import(t: SyntaxTree, t2: SyntaxTree, d: int, s: int)
    requires
        without_unresolved_import(t, t2, d),
    ensures
        sibling_chain(t, s) == sibling_chain(t2, s),
    decreases s,
{
    if 0 <= s < t.nodes@.len() {
        if s != d {
            assert(t2.nodes@[s] == t.nodes@[s]);
        } else {
            assert(sibling_bindings(t.nodes@[s].kind) =~= seq![]);
        }
        match t.nodes@[s].prev {
            Some(q) => if (q as int) < s {
                lemma_sibling_chain_without_import(t, t2, d, q as int);
            },
            None => {},
        }
    }
}

pub proof fn lemma_parent_bindings_without_import(t: SyntaxTree, t2: SyntaxTree, d: int, a: int, p: int)
    requires
        without_unresolved_import(t, t2, d),
        0 <= a < t.nodes@.len(),
        0 <= p < t.nodes@.len(),
    ensures
        parent_bindings(t, a, p) == parent_bindings(t2, a, p),
{
    if a != d {
        assert(t2.nodes@[a] == t.nodes@[a]);
    }
    if p != d {
        assert(t2.nodes@[p] == t.nodes@[p]);
    }
    match t.nodes@[a].prev {
        Some(q) => if (q as int) < t.nodes@.len() && q as int != d {
            assert(t2.nodes@[q as int] == t.nodes@[q as int]);
        },
        None => {},
    }
    assert(follows_in(t, a) == follows_in(t2, a));
}

/// Silent misses: an import that did not resolve changes nothing in the walk;
/// it is as if the import were not there.
pub proof fn lemma_unresolved_import_invisible(t: SyntaxTree, t2: SyntaxTree, d: int, a: int)
    requires
        without_unresolved_import(t, t2, d),
    ensures
        ascent(t, a) == ascent(t2, a),
        ascent_above(t, a) == ascent_above(t2, a),
        local_bindings(t, a) == local_bindings(t2, a),
    decreases a,
{
    if 0 <= a < t.nodes@.len() {
        lemma_sibling_chain_without_import(t, t2, d, a);
        if a != d {
            assert(t2.nodes@[a] == t.nodes@[a]);
        }
        match t.nodes@[a].parent {
            Some(p) => if (p as int) < a {
                lemma_parent_bindings_without_import(t, t2, d, a, p as int);
                lemma_unresolved_import_invisible(t, t2, d, p as int);
            },
            None => {},
        }
    }
}

} // verus!
