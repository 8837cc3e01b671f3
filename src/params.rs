//! Completion inside a call: the parameters not yet passed, and the values of
//! a named parameter being typed.
use vstd::prelude::*;
use vstd::string::StringExecFns;
use crate::model::{
    clone_opt, views, Arg, Completion, CompletionContext, CompletionKind, CompletionView, Func,
    ParamInfo, Signature, Value, NAMED_TEMPLATE, params_wf, TRIGGER_SUGGEST,
};

verus! {

/// The parameter whose values come from the fonts that the world offers.
pub const FONT_PARAM: &'static str = "font";

/// The number of partial applications around the base function.
pub open spec fn depth(f: Func) -> nat
    decreases f,
{
    match f {
        Func::Base(_) => 0,
        Func::With(g, _) => 1 + depth(*g),
    }
}

/// The signature of the base function under every partial application.
pub open spec fn innermost(f: Func) -> Signature
    decreases f,
{
    match f {
        Func::Base(s) => s,
        Func::With(g, _) => innermost(*g),
    }
}

/// The names passed as named arguments, in order.
pub open spec fn named_args(args: Seq<Arg>) -> Seq<Seq<char>>
    decreases args.len(),
{
    if args.len() == 0 {
        seq![]
    } else {
        named_args(args.drop_last()) + match args.last() {
            Arg::Named(n) => seq![n@],
            _ => seq![],
        }
    }
}

/// The entry that offers a named parameter.
pub open spec fn named_param_entry(p: ParamInfo) -> CompletionView {
    CompletionView {
        kind: CompletionKind::Param,
        label: p.name@,
        apply: Some(p.name@ + NAMED_TEMPLATE@),
        detail: Some(p.docs@),
        command: Some(TRIGGER_SUGGEST@),
    }
}

/// What one parameter contributes: nothing where it was passed already or
/// where a set rule cannot target it; else its name entry if it is named,
/// and its input's values if it is positional.
pub open spec fn param_entry(p: ParamInfo, excluded: Seq<Seq<char>>, set: bool) -> Seq<
    CompletionView,
> {
    if excluded.contains(p.name@) || (set && !p.settable) {
        seq![]
    } else {
        (if p.named {
            seq![named_param_entry(p)]
        } else {
            seq![]
        }) + (if p.positional {
            views(p.input@)
        } else {
            seq![]
        })
    }
}

pub open spec fn param_entries(ps: Seq<ParamInfo>, excluded: Seq<Seq<char>>, set: bool) -> Seq<
    CompletionView,
>
    decreases ps.len(),
{
    if ps.len() == 0 {
        seq![]
    } else {
        param_entries(ps.drop_last(), excluded, set) + param_entry(ps.last(), excluded, set)
    }
}

/// The entry with its insertion text wrapped in `prefix` and `suffix`.
pub open spec fn enriched(c: CompletionView, prefix: Seq<char>, suffix: Seq<char>) -> CompletionView {
    CompletionView {
        kind: c.kind,
        label: c.label,
        apply: Some(
            prefix + match c.apply {
                Some(a) => a,
                None => c.label,
            } + suffix,
        ),
        detail: c.detail,
        command: c.command,
    }
}

pub open spec fn enrich_all(s: Seq<CompletionView>, prefix: Seq<char>, suffix: Seq<char>) -> Seq<
    CompletionView,
> {
    s.map_values(|c: CompletionView| enriched(c, prefix, suffix))
}

/// The text before the cursor ends with `c`.
pub open spec fn ends_with(before: Seq<char>, c: char) -> bool {
    before.len() > 0 && before.last() == c
}

/// The entries after a space is put in front of each, where `yes` holds.
pub open spec fn spaced(s: Seq<CompletionView>, yes: bool) -> Seq<CompletionView> {
    if yes {
        enrich_all(s, seq![' '], seq![])
    } else {
        s
    }
}

/// The entries after a parameter completion, from the entries before it.
pub open spec fn param_result(
    prior: Seq<CompletionView>,
    callee: Option<Func>,
    set: bool,
    args: Seq<Arg>,
    before: Seq<char>,
) -> Seq<CompletionView> {
    match callee {
        None => prior,
        Some(f) => prior + spaced(
            param_entries(innermost(f).named@, named_args(args), set),
            ends_with(before, ','),
        ),
    }
}

/// The first parameter with the given name.
pub open spec fn lookup(ps: Seq<ParamInfo>, name: Seq<char>) -> Option<ParamInfo>
    decreases ps.len(),
{
    if ps.len() == 0 {
        None
    } else if ps[0].name@ == name {
        Some(ps[0])
    } else {
        lookup(ps.drop_first(), name)
    }
}

/// The value entries for a named parameter: its example, the values of its
/// input, and the fonts where it selects a font.
pub open spec fn value_entries(p: ParamInfo, name: Seq<char>, fonts: Seq<CompletionView>) -> Seq<
    CompletionView,
> {
    (match p.expr {
        Some(e) => seq![
            CompletionView {
                kind: CompletionKind::Constant,
                label: e@,
                apply: None,
                detail: Some(p.docs@),
                command: None,
            },
        ],
        None => seq![],
    }) + views(p.input@) + if name == FONT_PARAM@ {
        fonts
    } else {
        seq![]
    }
}

/// The entries after a named-value completion, from the entries before it.
pub open spec fn named_value_result(
    prior: Seq<CompletionView>,
    callee: Option<Func>,
    name: Seq<char>,
    before: Seq<char>,
    fonts: Seq<CompletionView>,
) -> Seq<CompletionView> {
    match callee {
        None => prior,
        Some(f) => match lookup(innermost(f).named@, name) {
            None => prior,
            Some(p) => if !p.named {
                prior
            } else {
                prior + spaced(value_entries(p, name, fonts), ends_with(before, ':'))
            },
        },
    }
}

/// A resolved callee's base signature is well formed.
pub open spec fn callee_wf(callee: Option<Func>) -> bool {
    match callee {
        Some(f) => innermost(f).wf(),
        None => true,
    }
}

/// Peels every partial application off `f`.
pub fn base_signature(f: &Func) -> (r: &Signature)
    ensures
        *r == innermost(*f),
{
    let mut cur = f;
    loop
        invariant
            innermost(*cur) == innermost(*f),
        decreases depth(*cur),
    {
        match cur {
            Func::Base(s) => {
                return s;
            },
            Func::With(g, _) => {
                cur = &**g;
            },
        }
    }
}

fn named_arg_names(args: &Vec<Arg>) -> (r: Vec<String>)
    ensures
        r@.map_values(|s: String| s@) == named_args(args@),
{
    let mut r: Vec<String> = Vec::new();
    let mut i: usize = 0;
    while i < args.len()
        invariant
            i <= args@.len(),
            r@.map_values(|s: String| s@) == named_args(args@.subrange(0, i as int)),
        decreases args@.len() - i,
    {
        let ghost prev = r@;
        assert(args@.subrange(0, i + 1).drop_last() =~= args@.subrange(0, i as int));
        match &args[i] {
            Arg::Named(n) => {
                r.push(n.clone());
                assert(r@.map_values(|s: String| s@) =~= prev.map_values(|s: String| s@).push(n@));
            },
            _ => {
                assert(named_args(args@.subrange(0, i + 1)) =~= named_args(args@.subrange(0, i as int)));
            },
        }
        i += 1;
    }
    assert(args@.subrange(0, args@.len() as int) =~= args@);
    r
}

fn contains_string(v: &Vec<String>, s: &String) -> (r: bool)
    ensures
        r == v@.map_values(|x: String| x@).contains(s@),
{
    let mut i: usize = 0;
    while i < v.len()
        invariant
            i <= v@.len(),
            forall|j: int| 0 <= j < i ==> v@[j]@ != s@,
        decreases v@.len() - i,
    {
        if v[i] == *s {
            assert(v@.map_values(|x: String| x@)[i as int] == s@);
            return true;
        }
        i += 1;
    }
    false
}

fn ends_with_char(s: &String, c: char) -> (r: bool)
    ensures
        r == ends_with(s@, c),
{
    let n = s.as_str().unicode_len();
    n > 0 && s.as_str().get_char(n - 1) == c
}

fn append_all(dst: &mut Vec<Completion>, src: &Vec<Completion>)
    ensures
        views(final(dst)@) == views(old(dst)@) + views(src@),
{
    let ghost d0 = views(dst@);
    let mut i: usize = 0;
    while i < src.len()
        invariant
            i <= src@.len(),
            views(dst@) == d0 + views(src@.subrange(0, i as int)),
        decreases src@.len() - i,
    {
        let ghost prev = views(dst@);
        dst.push(src[i].duplicate());
        assert(views(dst@) =~= prev.push(src@[i as int]@));
        assert(views(src@.subrange(0, i + 1)) =~= views(src@.subrange(0, i as int)).push(src@[i as int]@));
        i += 1;
    }
    assert(src@.subrange(0, src@.len() as int) =~= src@);
}

fn param_entry_push(out: &mut Vec<Completion>, p: &ParamInfo, excluded: &Vec<String>, set: bool)
    ensures
        views(final(out)@) == views(old(out)@) + param_entry(
            *p,
            excluded@.map_values(|x: String| x@),
            set,
        ),
{
    if contains_string(excluded, &p.name) {
        assert(views(out@) =~= views(out@) + seq![]);
        return ;
    }
    if set && !p.settable {
        assert(views(out@) =~= views(out@) + seq![]);
        return ;
    }
    let ghost o0 = views(out@);
    if p.named {
        out.push(
            Completion {
                kind: CompletionKind::Param,
                label: p.name.clone(),
                apply: Some(p.name.clone().concat(NAMED_TEMPLATE)),
                detail: Some(p.docs.clone()),
                command: Some(String::from_str(TRIGGER_SUGGEST)),
            },
        );
        assert(views(out@) =~= o0 + seq![named_param_entry(*p)]);
    } else {
        assert(views(out@) =~= o0 + seq![]);
    }
    let ghost o1 = views(out@);
    if p.positional {
        append_all(out, &p.input);
    } else {
        assert(views(out@) =~= o1 + seq![]);
    }
}

impl CompletionContext {
    /// Puts `prefix` before and `suffix` after the insertion text of every
    /// entry from position `from` on (its label where it has none); the
    /// entries before `from` stay as they are.
    pub fn enrich_from(&mut self, from: usize, prefix: &str, suffix: &str)
        requires
            from <= old(self).completions@.len(),
        ensures
            final(self).same_request(&*old(self)),
            views(final(self).completions@) == views(old(self).completions@).take(from as int)
                + enrich_all(views(old(self).completions@).skip(from as int), prefix@, suffix@),
    {
        let ghost start = *self;
        let mut i: usize = from;
        while i < self.completions.len()
            invariant
                self.same_request(&start),
                self.completions@.len() == start.completions@.len(),
                from <= i <= self.completions@.len(),
                forall|j: int|
                    from <= j < i ==> #[trigger] self.completions@[j]@ == enriched(
                        start.completions@[j]@,
                        prefix@,
                        suffix@,
                    ),
                forall|j: int|
                    (0 <= j < from || i <= j < self.completions@.len()) ==> #[trigger] self.completions@[j]
                        == start.completions@[j],
            decreases self.completions@.len() - i,
        {
            let current = match &self.completions[i].apply {
                Some(a) => a.clone(),
                None => self.completions[i].label.clone(),
            };
            let text = String::from_str(prefix).concat(current.as_str()).concat(suffix);
            let old_entry = self.completions[i].duplicate();
            let entry = Completion {
                kind: old_entry.kind,
                label: old_entry.label,
                apply: Some(text),
                detail: old_entry.detail,
                command: old_entry.command,
            };
            self.completions.set(i, entry);
            i += 1;
        }
        assert(views(self.completions@) =~= views(start.completions@).take(from as int) + enrich_all(
            views(start.completions@).skip(from as int),
            prefix@,
            suffix@,
        ));
    }

    /// Puts `prefix` before and `suffix` after the insertion text of every
    /// entry so far (its label where it has none).
    pub fn enrich(&mut self, prefix: &str, suffix: &str)
        ensures
            final(self).same_request(&*old(self)),
            views(final(self).completions@) == enrich_all(
                views(old(self).completions@),
                prefix@,
                suffix@,
            ),
    {
        self.enrich_from(0, prefix, suffix);
        assert(views(old(self).completions@).take(0) =~= seq![]);
        assert(views(old(self).completions@).skip(0) =~= views(old(self).completions@));
        assert(views(self.completions@) =~= enrich_all(views(old(self).completions@), prefix@, suffix@));
    }
}

/// Adds completions for the parameters of the function that the callee
/// resolved to (`None` where it did not): the named parameters not passed in
/// `args` (only settable ones in a set rule), and the values of positional
/// ones. After a comma, a space goes in front of every entry it adds.
pub fn param_completions(ctx: &mut CompletionContext, callee: &Option<Func>, set: bool, args: &Vec<Arg>)
    requires
        callee_wf(*callee),
    ensures
        final(ctx).same_request(&*old(ctx)),
        views(final(ctx).completions@) == param_result(
            views(old(ctx).completions@),
            *callee,
            set,
            args@,
            old(ctx).before@,
        ),
{
    let func = match callee {
        Some(f) => f,
        None => {
            return ;
        },
    };
    let signature = base_signature(func);
    let exclude = named_arg_names(args);
    let ghost start = *ctx;
    let first_new = ctx.completions.len();
    let ghost excluded = named_args(args@);
    let ps = &signature.named;
    let mut i: usize = 0;
    assert(views(ctx.completions@) =~= views(start.completions@) + seq![]);
    while i < ps.len()
        invariant
            ctx.same_request(&start),
            i <= ps@.len(),
            exclude@.map_values(|x: String| x@) == excluded,
            views(ctx.completions@) == views(start.completions@) + param_entries(
                ps@.subrange(0, i as int),
                excluded,
                set,
            ),
        decreases ps@.len() - i,
    {
        assert(ps@.subrange(0, i + 1).drop_last() =~= ps@.subrange(0, i as int));
        param_entry_push(&mut ctx.completions, &ps[i], &exclude, set);
        i += 1;
    }
    assert(ps@.subrange(0, ps@.len() as int) =~= ps@);
    let ghost added = param_entries(ps@, excluded, set);
    assert(views(ctx.completions@).take(first_new as int) =~= views(start.completions@));
    assert(views(ctx.completions@).skip(first_new as int) =~= added);
    if ends_with_char(&ctx.before, ',') {
        ctx.enrich_from(first_new, " ", "");
        proof {
            reveal_strlit(" ");
            reveal_strlit("");
            assert(" "@ =~= seq![' ']);
        }
    }
}

fn find_param<'a>(ps: &'a Vec<ParamInfo>, name: &String) -> (r: Option<&'a ParamInfo>)
    ensures
        match r {
            Some(p) => lookup(ps@, name@) == Some(*p),
            None => lookup(ps@, name@) is None,
        },
{
    let mut i: usize = 0;
    assert(ps@.subrange(0, ps@.len() as int) =~= ps@);
    while i < ps.len()
        invariant
            i <= ps@.len(),
            lookup(ps@, name@) == lookup(ps@.subrange(i as int, ps@.len() as int), name@),
        decreases ps@.len() - i,
    {
        let ghost rest = ps@.subrange(i as int, ps@.len() as int);
        assert(rest.drop_first() =~= ps@.subrange(i + 1, ps@.len() as int));
        if ps[i].name == *name {
            return Some(&ps[i]);
        }
        i += 1;
    }
    assert(ps@.subrange(i as int, ps@.len() as int).len() == 0);
    None
}

/// Adds completions for the values of the named parameter `name` of the
/// function that the callee resolved to: its example, the values its input
/// type suggests, and the fonts where it selects a font. Nothing where the
/// callee did not resolve or has no such named parameter. After a colon, a
/// space goes in front of every entry it adds.
pub fn named_param_value_completions(ctx: &mut CompletionContext, callee: &Option<Func>, name: &str)
    requires
        callee_wf(*callee),
    ensures
        final(ctx).same_request(&*old(ctx)),
        views(final(ctx).completions@) == named_value_result(
            views(old(ctx).completions@),
            *callee,
            name@,
            old(ctx).before@,
            views(old(ctx).world.fonts@),
        ),
{
    let func = match callee {
        Some(f) => f,
        None => {
            return ;
        },
    };
    let signature = base_signature(func);
    let key = String::from_str(name);
    let param = match find_param(&signature.named, &key) {
        Some(p) => p,
        None => {
            return ;
        },
    };
    if !param.named {
        return ;
    }
    let ghost c0 = views(ctx.completions@);
    let first_new = ctx.completions.len();
    match &param.expr {
        Some(e) => {
            ctx.completions.push(
                Completion {
                    kind: CompletionKind::Constant,
                    label: e.clone(),
                    apply: None,
                    detail: Some(param.docs.clone()),
                    command: None,
                },
            );
        },
        None => {},
    }
    append_all(&mut ctx.completions, &param.input);
    if key == String::from_str(FONT_PARAM) {
        append_all(&mut ctx.completions, &ctx.world.fonts);
    }
    let ghost added = value_entries(*param, name@, views(ctx.world.fonts@));
    assert(views(ctx.completions@) =~= c0 + added);
    assert(views(ctx.completions@).take(first_new as int) =~= c0);
    assert(views(ctx.completions@).skip(first_new as int) =~= added);
    if ends_with_char(&ctx.before, ':') {
        ctx.enrich_from(first_new, " ", "");
        proof {
            reveal_strlit(" ");
            reveal_strlit("");
            assert(" "@ =~= seq![' ']);
        }
    }
}

/// Argument exclusion: a parameter already passed by name is not offered
/// again; a named parameter not passed yet is offered by its name entry, first
/// among what it contributes, unless a set rule cannot target it.
pub proof fn lemma_argument_exclusion(p: ParamInfo, args: Seq<Arg>, set: bool)
    ensures
        named_args(args).contains(p.name@) ==> param_entry(p, named_args(args), set) == Seq::<
            CompletionView,
        >::empty(),
        !named_args(args).contains(p.name@) && p.named && (!set || p.settable) ==> param_entry(
            p,
            named_args(args),
            set,
        ).len() > 0 && param_entry(p, named_args(args), set)[0] == named_param_entry(p),
{
    let e = param_entry(p, named_args(args), set);
    if !named_args(args).contains(p.name@) && p.named && (!set || p.settable) {
        assert(e[0] == named_param_entry(p));
    }
}

/// Set-context filtering: in a set rule a parameter that is not settable
/// contributes nothing.
pub proof fn lemma_set_filtering(p: ParamInfo, excluded: Seq<Seq<char>>)
    requires
        !p.settable,
    ensures
        param_entry(p, excluded, true) == Seq::<CompletionView>::empty(),
{
}

/// Partial-application unwrapping: both parameter completions and value
/// completions for a function under any number of partial applications are
/// those for its base function; peeling one layer changes nothing.
pub proof fn lemma_unwrapping(
    prior: Seq<CompletionView>,
    f: Func,
    bound: Vec<Value>,
    set: bool,
    args: Seq<Arg>,
    name: Seq<char>,
    before: Seq<char>,
    fonts: Seq<CompletionView>,
)
    ensures
        param_result(prior, Some(f), set, args, before) == param_result(
            prior,
            Some(Func::Base(innermost(f))),
            set,
            args,
            before,
        ),
        named_value_result(prior, Some(f), name, before, fonts) == named_value_result(
            prior,
            Some(Func::Base(innermost(f))),
            name,
            before,
            fonts,
        ),
        param_result(prior, Some(Func::With(Box::new(f), bound)), set, args, before) == param_result(
            prior,
            Some(f),
            set,
            args,
            before,
        ),
        named_value_result(prior, Some(Func::With(Box::new(f), bound)), name, before, fonts)
            == named_value_result(prior, Some(f), name, before, fonts),
{
}

/// Silent misses: an unresolved callee, or a name that is no parameter of the
/// callee, leaves the entries as they were, so that running such a request
/// again changes nothing either.
pub proof fn lemma_silent_miss(
    prior: Seq<CompletionView>,
    f: Func,
    set: bool,
    args: Seq<Arg>,
    name: Seq<char>,
    before: Seq<char>,
    fonts: Seq<CompletionView>,
)
    ensures
        param_result(prior, None, set, args, before) == prior,
        param_result(param_result(prior, None, set, args, before), None, set, args, before)
            == param_result(prior, None, set, args, before),
        named_value_result(prior, None, name, before, fonts) == prior,
        lookup(innermost(f).named@, name) is None ==> named_value_result(
            prior,
            Some(f),
            name,
            before,
            fonts,
        ) == prior,
        lookup(innermost(f).named@, name) is None ==> named_value_result(
            named_value_result(prior, Some(f), name, before, fonts),
            Some(f),
            name,
            before,
            fonts,
        ) == named_value_result(prior, Some(f), name, before, fonts),
{
}

/// The parameter is offered by name: it is named, not passed yet, and a set
/// rule, if any, can target it.
pub open spec fn offered(p: ParamInfo, excluded: Seq<Seq<char>>, set: bool) -> bool {
    p.named && !excluded.contains(p.name@) && !(set && !p.settable)
}

pub proof fn lemma_params_wf_prefix(ps: Seq<ParamInfo>)
    requires
        params_wf(ps),
        ps.len() > 0,
    ensures
        params_wf(ps.drop_last()),
{
    let t = ps.drop_last();
    assert forall|i: int, j: int| 0 <= i < j < t.len() implies #[trigger] t[i].name@
        != #[trigger] t[j].name@ by {
        assert(t[i] == ps[i] && t[j] == ps[j]);
    }
    assert forall|i: int, k: int| 0 <= i < t.len() && 0 <= k < t[i].input@.len() implies (
    #[trigger] t[i].input@[k]).kind != CompletionKind::Param by {
        assert(t[i] == ps[i]);
    }
}

/// What one parameter adds holds a parameter entry only at its start, and
/// only where the parameter is offered.
pub proof fn lemma_param_entry_shape(p: ParamInfo, excluded: Seq<Seq<char>>, set: bool)
    requires
        forall|k: int| 0 <= k < p.input@.len() ==> (#[trigger] p.input@[k]).kind != CompletionKind::Param,
    ensures
        forall|k: int|
            0 <= k < param_entry(p, excluded, set).len() && (#[trigger] param_entry(
                p,
                excluded,
                set,
            )[k]).kind == CompletionKind::Param ==> k == 0 && offered(p, excluded, set)
                && param_entry(p, excluded, set)[k] == named_param_entry(p),
        offered(p, excluded, set) ==> param_entry(p, excluded, set).len() > 0 && param_entry(
            p,
            excluded,
            set,
        )[0] == named_param_entry(p),
{
    let tail = param_entry(p, excluded, set);
    assert forall|k: int| 0 <= k < tail.len() && (#[trigger] tail[k]).kind
        == CompletionKind::Param implies k == 0 && offered(p, excluded, set) && tail[k]
        == named_param_entry(p) by {
        if offered(p, excluded, set) {
            if k > 0 {
                assert(tail[k] == views(p.input@)[k - 1]);
                assert(p.input@[k - 1]@.kind != CompletionKind::Param);
            }
        } else if !excluded.contains(p.name@) && !(set && !p.settable) {
            assert(tail[k] == views(p.input@)[k]);
            assert(p.input@[k]@.kind != CompletionKind::Param);
        }
    }
}

/// Argument exclusion and set-context filtering over a whole call: every
/// parameter entry that a call adds is the name entry of an offered parameter.
pub proof fn lemma_call_entries_origin(ps: Seq<ParamInfo>, excluded: Seq<Seq<char>>, set: bool)
    requires
        params_wf(ps),
    ensures
        forall|k: int|
            0 <= k < param_entries(ps, excluded, set).len() && (#[trigger] param_entries(
                ps,
                excluded,
                set,
            )[k]).kind == CompletionKind::Param ==> exists|i: int|
                0 <= i < ps.len() && offered(ps[i], excluded, set) && param_entries(
                    ps,
                    excluded,
                    set,
                )[k] == named_param_entry(#[trigger] ps[i]),
    decreases ps.len(),
{
    if ps.len() > 0 {
        let t = ps.drop_last();
        let n = ps.len() - 1;
        let e = param_entries(ps, excluded, set);
        lemma_params_wf_prefix(ps);
        lemma_call_entries_origin(t, excluded, set);
        lemma_param_entry_shape(ps[n], excluded, set);
        let e0 = param_entries(t, excluded, set);
        let tail = param_entry(ps[n], excluded, set);
        assert forall|k: int|
            0 <= k < e.len() && (#[trigger] e[k]).kind == CompletionKind::Param implies exists|i: int|
            0 <= i < ps.len() && offered(ps[i], excluded, set) && e[k] == named_param_entry(
                #[trigger] ps[i],
            ) by {
            if k < e0.len() {
                assert(e[k] == e0[k]);
                let i = choose|i: int|
                    0 <= i < t.len() && offered(t[i], excluded, set) && e0[k] == named_param_entry(
                        #[trigger] t[i],
                    );
                assert(ps[i] == t[i]);
            } else {
                assert(e[k] == tail[k - e0.len()]);
            }
        }
    }
}

/// Every offered parameter of a call gets its name entry.
pub proof fn lemma_call_entries_complete(ps: Seq<ParamInfo>, excluded: Seq<Seq<char>>, set: bool)
    requires
        params_wf(ps),
    ensures
        forall|i: int|
            0 <= i < ps.len() && offered(#[trigger] ps[i], excluded, set) ==> exists|k: int|
                0 <= k < param_entries(ps, excluded, set).len() && #[trigger] param_entries(
                    ps,
                    excluded,
                    set,
                )[k] == named_param_entry(ps[i]),
    decreases ps.len(),
{
    if ps.len() > 0 {
        let t = ps.drop_last();
        let n = ps.len() - 1;
        let e = param_entries(ps, excluded, set);
        lemma_params_wf_prefix(ps);
        lemma_call_entries_complete(t, excluded, set);
        lemma_param_entry_shape(ps[n], excluded, set);
        let e0 = param_entries(t, excluded, set);
        let tail = param_entry(ps[n], excluded, set);
        assert forall|i: int| 0 <= i < ps.len() && offered(#[trigger] ps[i], excluded, set) implies exists|k: int|
            0 <= k < e.len() && #[trigger] e[k] == named_param_entry(ps[i]) by {
            if i < n {
                assert(ps[i] == t[i]);
                let k = choose|k: int| 0 <= k < e0.len() && #[trigger] e0[k] == named_param_entry(t[i]);
                assert(e[k] == e0[k]);
            } else {
                assert(e[e0.len() as int] == tail[0]);
            }
        }
    }
}

/// No two parameter entries of a call share a label.
pub proof fn lemma_call_entries_distinct(ps: Seq<ParamInfo>, excluded: Seq<Seq<char>>, set: bool)
    requires
        params_wf(ps),
    ensures
        forall|k1: int, k2: int|
            0 <= k1 < k2 < param_entries(ps, excluded, set).len() && (#[trigger] param_entries(
                ps,
                excluded,
                set,
            )[k1]).kind == CompletionKind::Param && (#[trigger] param_entries(
                ps,
                excluded,
                set,
            )[k2]).kind == CompletionKind::Param ==> param_entries(ps, excluded, set)[k1].label
                != param_entries(ps, excluded, set)[k2].label,
    decreases ps.len(),
{
    if ps.len() > 0 {
        let t = ps.drop_last();
        let n = ps.len() - 1;
        let e = param_entries(ps, excluded, set);
        lemma_params_wf_prefix(ps);
        lemma_call_entries_distinct(t, excluded, set);
        lemma_call_entries_origin(t, excluded, set);
        lemma_param_entry_shape(ps[n], excluded, set);
        let e0 = param_entries(t, excluded, set);
        let tail = param_entry(ps[n], excluded, set);
        assert forall|k1: int, k2: int|
            0 <= k1 < k2 < e.len() && (#[trigger] e[k1]).kind == CompletionKind::Param && (
            #[trigger] e[k2]).kind == CompletionKind::Param implies e[k1].label != e[k2].label by {
            if k2 < e0.len() {
                assert(e[k1] == e0[k1] && e[k2] == e0[k2]);
            } else if k1 < e0.len() {
                assert(e[k1] == e0[k1]);
                let i = choose|i: int|
                    0 <= i < t.len() && offered(t[i], excluded, set) && e0[k1] == named_param_entry(
                        #[trigger] t[i],
                    );
                assert(ps[i] == t[i]);
                assert(e[k2] == tail[k2 - e0.len()]);
                assert(ps[i].name@ != ps[n].name@);
            } else {
                assert(e[k1] == tail[k1 - e0.len()]);
                assert(e[k2] == tail[k2 - e0.len()]);
            }
        }
    }
}

/// Argument exclusion and set-context filtering over a whole call: no
/// parameter entry that a call adds carries the name of a parameter that was
/// passed already or that a set rule cannot target.
pub proof fn lemma_call_entries_skip(ps: Seq<ParamInfo>, excluded: Seq<Seq<char>>, set: bool)
    requires
        params_wf(ps),
    ensures
        forall|k: int, i: int|
            0 <= k < param_entries(ps, excluded, set).len() && (#[trigger] param_entries(
                ps,
                excluded,
                set,
            )[k]).kind == CompletionKind::Param && 0 <= i < ps.len() && (excluded.contains(
                ps[i].name@,
            ) || (set && !ps[i].settable)) ==> param_entries(ps, excluded, set)[k].label != (
            #[trigger] ps[i]).name@,
{
    let e = param_entries(ps, excluded, set);
    lemma_call_entries_origin(ps, excluded, set);
    assert forall|k: int, i: int|
        0 <= k < e.len() && (#[trigger] e[k]).kind == CompletionKind::Param && 0 <= i < ps.len()
            && (excluded.contains(ps[i].name@) || (set && !ps[i].settable)) implies e[k].label
        != (#[trigger] ps[i]).name@ by {
        let j = choose|j: int|
            0 <= j < ps.len() && offered(ps[j], excluded, set) && e[k] == named_param_entry(
                #[trigger] ps[j],
            );
        if i < j {
            assert(ps[i].name@ != ps[j].name@);
        } else if j < i {
            assert(ps[j].name@ != ps[i].name@);
        }
    }
}

} // verus!
