use tinymist_query::bindings::collect_bindings;
use tinymist_query::model::{
    Arg, Completion, CompletionContext, CompletionKind, Func, Node, NodeKind, Param, ParamInfo,
    ResolvedModule, Signature, SyntaxTree, Value, World,
};
use tinymist_query::params::{named_param_value_completions, param_completions};

const TRIGGER: &str = "editor.action.triggerSuggest";

fn s(x: &str) -> String {
    x.to_string()
}

fn node(kind: NodeKind, parent: Option<usize>, prev: Option<usize>) -> Node {
    Node { kind, parent, prev }
}

fn empty_world() -> World {
    World { global: vec![], math: vec![], fonts: vec![] }
}

fn ctx_with(world: World, tree: SyntaxTree, leaf: usize, before: &str) -> CompletionContext {
    CompletionContext { world, tree, leaf, before: s(before), completions: vec![] }
}

fn plain(kind: CompletionKind, label: &str) -> Completion {
    Completion { kind, label: s(label), apply: None, detail: None, command: None }
}

fn call(label: &str) -> Completion {
    Completion {
        kind: CompletionKind::Func,
        label: s(label),
        apply: Some(format!("{}(${{}})", label)),
        detail: None,
        command: Some(s(TRIGGER)),
    }
}

fn named_entry(name: &str, docs: &str) -> Completion {
    Completion {
        kind: CompletionKind::Param,
        label: s(name),
        apply: Some(format!("{}: ${{}}", name)),
        detail: Some(s(docs)),
        command: Some(s(TRIGGER)),
    }
}

fn param(name: &str, named: bool, positional: bool, settable: bool) -> ParamInfo {
    ParamInfo {
        name: s(name),
        docs: s(&format!("The {} parameter.", name)),
        positional,
        named,
        settable,
        expr: None,
        input: vec![],
    }
}

/// `let x = 1; let x(a) = a; <cursor>`
fn shadowing_tree() -> SyntaxTree {
    SyntaxTree {
        nodes: vec![
            node(NodeKind::Other, None, None),
            node(NodeKind::LetBinding { closure: false, bindings: vec![s("x")] }, Some(0), None),
            node(NodeKind::LetBinding { closure: true, bindings: vec![s("x")] }, Some(0), Some(1)),
            node(NodeKind::Other, Some(0), Some(2)),
        ],
    }
}

/// `for x in x { <cursor> }`: node 4 is the iterable, node 6 a leaf of the body.
fn loop_tree() -> SyntaxTree {
    SyntaxTree {
        nodes: vec![
            node(NodeKind::Other, None, None),
            node(NodeKind::ForLoop { pattern: vec![s("x")] }, Some(0), None),
            node(NodeKind::Other, Some(1), None),
            node(NodeKind::In, Some(1), Some(2)),
            node(NodeKind::Other, Some(1), Some(3)),
            node(NodeKind::Other, Some(1), Some(4)),
            node(NodeKind::Other, Some(5), None),
        ],
    }
}

#[test]
fn shadowing_later_declaration_wins() {
    let r = collect_bindings(&shadowing_tree(), 3);
    assert_eq!(r, vec![(s("x"), CompletionKind::Func)]);
}

#[test]
fn shadowing_reversed_order_gives_variable() {
    let mut t = shadowing_tree();
    t.nodes[1] = node(NodeKind::LetBinding { closure: true, bindings: vec![s("x")] }, Some(0), None);
    t.nodes[2] = node(NodeKind::LetBinding { closure: false, bindings: vec![s("x")] }, Some(0), Some(1));
    let r = collect_bindings(&t, 3);
    assert_eq!(r, vec![(s("x"), CompletionKind::Variable)]);
}

#[test]
fn loop_variable_not_seen_from_iterable() {
    let r = collect_bindings(&loop_tree(), 4);
    assert!(r.is_empty());
}

#[test]
fn loop_variable_seen_from_body() {
    let r = collect_bindings(&loop_tree(), 6);
    assert_eq!(r, vec![(s("x"), CompletionKind::Variable)]);
}

#[test]
fn closure_parameters_are_variables() {
    let params = vec![
        Param::Pos(vec![s("a"), s("b")]),
        Param::Named(s("c")),
        Param::Spread(Some(s("rest"))),
        Param::Spread(None),
    ];
    let t = SyntaxTree {
        nodes: vec![
            node(NodeKind::Other, None, None),
            node(NodeKind::Closure { params }, Some(0), None),
            node(NodeKind::Other, Some(1), None),
        ],
    };
    let r = collect_bindings(&t, 2);
    assert_eq!(
        r,
        vec![
            (s("a"), CompletionKind::Variable),
            (s("b"), CompletionKind::Variable),
            (s("c"), CompletionKind::Variable),
            (s("rest"), CompletionKind::Variable),
        ]
    );
}

#[test]
fn closure_parameter_shadows_outer_declaration() {
    // let a = 1; (a) => <cursor>
    let t = SyntaxTree {
        nodes: vec![
            node(NodeKind::Other, None, None),
            node(NodeKind::LetBinding { closure: false, bindings: vec![s("a")] }, Some(0), None),
            node(NodeKind::Closure { params: vec![Param::Named(s("a"))] }, Some(0), Some(1)),
            node(NodeKind::Other, Some(2), None),
        ],
    };
    let r = collect_bindings(&t, 3);
    assert_eq!(r, vec![(s("a"), CompletionKind::Variable)]);
}

#[test]
fn import_without_list_binds_module_name() {
    let m = ResolvedModule { name: Some(s("utils")), scope: None };
    let t = SyntaxTree {
        nodes: vec![
            node(NodeKind::Other, None, None),
            node(NodeKind::ModuleImport { has_imports: false, resolved: Some(m) }, Some(0), None),
            node(NodeKind::Other, Some(0), Some(1)),
        ],
    };
    assert_eq!(collect_bindings(&t, 2), vec![(s("utils"), CompletionKind::Module)]);
}

#[test]
fn import_with_list_binds_exports_by_category() {
    let m = ResolvedModule {
        name: Some(s("utils")),
        scope: Some(vec![
            (s("f"), Value::Func),
            (s("m"), Value::Module),
            (s("t"), Value::Type),
            (s("c"), Value::Other),
            (s(""), Value::Other),
        ]),
    };
    let t = SyntaxTree {
        nodes: vec![
            node(NodeKind::Other, None, None),
            node(NodeKind::ModuleImport { has_imports: true, resolved: Some(m) }, Some(0), None),
            node(NodeKind::Other, Some(0), Some(1)),
        ],
    };
    assert_eq!(
        collect_bindings(&t, 2),
        vec![
            (s("f"), CompletionKind::Func),
            (s("m"), CompletionKind::Module),
            (s("t"), CompletionKind::Type),
            (s("c"), CompletionKind::Constant),
        ]
    );
}

#[test]
fn unresolved_import_binds_nothing() {
    let t = SyntaxTree {
        nodes: vec![
            node(NodeKind::Other, None, None),
            node(NodeKind::LetBinding { closure: false, bindings: vec![s("y")] }, Some(0), None),
            node(NodeKind::ModuleImport { has_imports: true, resolved: None }, Some(0), Some(1)),
            node(NodeKind::Other, Some(0), Some(2)),
        ],
    };
    let first = collect_bindings(&t, 3);
    let second = collect_bindings(&t, 3);
    assert_eq!(first, vec![(s("y"), CompletionKind::Variable)]);
    assert_eq!(first, second);
}

#[test]
fn empty_names_are_dropped() {
    let t = SyntaxTree {
        nodes: vec![
            node(NodeKind::Other, None, None),
            node(NodeKind::LetBinding { closure: false, bindings: vec![s(""), s("z")] }, Some(0), None),
            node(NodeKind::Other, Some(0), Some(1)),
        ],
    };
    assert_eq!(collect_bindings(&t, 2), vec![(s("z"), CompletionKind::Variable)]);
}

#[test]
fn user_binding_shadows_builtin() {
    let world = World {
        global: vec![(s("calc"), Value::Module), (s("sum"), Value::Func)],
        math: vec![],
        fonts: vec![],
    };
    let t = SyntaxTree {
        nodes: vec![
            node(NodeKind::Other, None, None),
            node(NodeKind::LetBinding { closure: false, bindings: vec![s("calc")] }, Some(0), None),
            node(NodeKind::Other, Some(0), Some(1)),
        ],
    };
    let mut ctx = ctx_with(world, t, 2, "");
    ctx.scope_completions_(true, |_v: &Value| true);
    assert_eq!(ctx.completions, vec![call("sum"), plain(CompletionKind::Variable, "calc")]);
    assert_eq!(ctx.completions.iter().filter(|c| c.label == "calc").count(), 1);
}

#[test]
fn local_function_gets_call_template() {
    let mut ctx = ctx_with(empty_world(), shadowing_tree(), 3, "");
    ctx.scope_completions_(false, |_v: &Value| true);
    assert_eq!(ctx.completions, vec![call("x")]);
}

#[test]
fn math_mode_draws_on_math_scope() {
    let world = World {
        global: vec![(s("text"), Value::Func)],
        math: vec![(s("frac"), Value::Func), (s("pi"), Value::Other)],
        fonts: vec![],
    };
    let t = SyntaxTree {
        nodes: vec![node(NodeKind::Equation, None, None), node(NodeKind::Other, Some(0), None)],
    };
    let mut ctx = ctx_with(world, t, 1, "");
    ctx.scope_completions_(true, |_v: &Value| true);
    assert_eq!(ctx.completions, vec![call("frac"), plain(CompletionKind::Constant, "pi")]);
}

#[test]
fn markup_mode_draws_on_global_scope() {
    let world = World {
        global: vec![(s("text"), Value::Func)],
        math: vec![(s("frac"), Value::Func)],
        fonts: vec![],
    };
    let t = SyntaxTree {
        nodes: vec![node(NodeKind::Other, None, None), node(NodeKind::Other, Some(0), None)],
    };
    let mut ctx = ctx_with(world, t, 1, "");
    ctx.scope_completions_(true, |_v: &Value| true);
    assert_eq!(ctx.completions, vec![call("text")]);
}

#[test]
fn filter_and_parens_shape_builtins() {
    let world = World {
        global: vec![(s("text"), Value::Func), (s("red"), Value::Other), (s("int"), Value::Type)],
        math: vec![],
        fonts: vec![],
    };
    let t = SyntaxTree { nodes: vec![node(NodeKind::Other, None, None)] };
    let mut ctx = ctx_with(world, t, 0, "");
    ctx.scope_completions_(false, |v: &Value| *v != Value::Other);
    assert_eq!(
        ctx.completions,
        vec![plain(CompletionKind::Func, "text"), plain(CompletionKind::Type, "int")]
    );
}

fn ab_signature() -> Signature {
    Signature { named: vec![param("a", true, false, true), param("b", true, false, true)] }
}

#[test]
fn passed_named_argument_is_excluded() {
    let mut ctx = ctx_with(empty_world(), SyntaxTree { nodes: vec![] }, 0, "f(a: 1, ");
    let args = vec![Arg::Named(s("a")), Arg::Pos];
    param_completions(&mut ctx, &Some(Func::Base(ab_signature())), false, &args);
    assert_eq!(ctx.completions, vec![named_entry("b", "The b parameter.")]);
}

#[test]
fn set_rule_skips_unsettable_parameter() {
    let sig = Signature {
        named: vec![param("a", true, false, true), param("b", true, false, false)],
    };
    let mut ctx = ctx_with(empty_world(), SyntaxTree { nodes: vec![] }, 0, "set f(");
    param_completions(&mut ctx, &Some(Func::Base(sig)), true, &vec![]);
    assert_eq!(ctx.completions, vec![named_entry("a", "The a parameter.")]);
}

#[test]
fn positional_parameter_offers_input_values() {
    let mut body = param("body", false, true, true);
    body.input = vec![plain(CompletionKind::Constant, "none")];
    let sig = Signature { named: vec![body, param("size", true, false, true)] };
    let mut ctx = ctx_with(empty_world(), SyntaxTree { nodes: vec![] }, 0, "f(");
    param_completions(&mut ctx, &Some(Func::Base(sig)), false, &vec![]);
    assert_eq!(
        ctx.completions,
        vec![plain(CompletionKind::Constant, "none"), named_entry("size", "The size parameter.")]
    );
}

#[test]
fn comma_before_cursor_adds_space() {
    let mut ctx = ctx_with(empty_world(), SyntaxTree { nodes: vec![] }, 0, "f(a: 1,");
    let args = vec![Arg::Named(s("a"))];
    param_completions(&mut ctx, &Some(Func::Base(ab_signature())), false, &args);
    let mut expected = named_entry("b", "The b parameter.");
    expected.apply = Some(s(" b: ${}"));
    assert_eq!(ctx.completions, vec![expected]);
}

#[test]
fn partial_applications_are_unwrapped() {
    let wrapped = Func::With(
        Box::new(Func::With(Box::new(Func::Base(ab_signature())), vec![Value::Other])),
        vec![Value::Func],
    );
    let mut direct = ctx_with(empty_world(), SyntaxTree { nodes: vec![] }, 0, "f(");
    let mut through = ctx_with(empty_world(), SyntaxTree { nodes: vec![] }, 0, "f(");
    param_completions(&mut direct, &Some(Func::Base(ab_signature())), false, &vec![]);
    param_completions(&mut through, &Some(wrapped), false, &vec![]);
    assert_eq!(direct.completions, through.completions);
    assert_eq!(direct.completions.len(), 2);
}

#[test]
fn unresolved_callee_adds_nothing() {
    let mut ctx = ctx_with(empty_world(), SyntaxTree { nodes: vec![] }, 0, "f(,");
    param_completions(&mut ctx, &None, false, &vec![]);
    param_completions(&mut ctx, &None, false, &vec![]);
    named_param_value_completions(&mut ctx, &None, "a");
    assert!(ctx.completions.is_empty());
}

fn fill_signature() -> Signature {
    let mut fill = param("fill", true, false, true);
    fill.expr = Some(s("red"));
    fill.input = vec![plain(CompletionKind::Constant, "blue")];
    let mut font = param("font", true, false, true);
    font.input = vec![plain(CompletionKind::Constant, "\"serif\"")];
    let pos = param("body", false, true, true);
    Signature { named: vec![fill, font, pos] }
}

#[test]
fn named_value_offers_example_and_input() {
    let mut ctx = ctx_with(empty_world(), SyntaxTree { nodes: vec![] }, 0, "f(fill: ");
    named_param_value_completions(&mut ctx, &Some(Func::Base(fill_signature())), "fill");
    let example = Completion {
        kind: CompletionKind::Constant,
        label: s("red"),
        apply: None,
        detail: Some(s("The fill parameter.")),
        command: None,
    };
    assert_eq!(ctx.completions, vec![example, plain(CompletionKind::Constant, "blue")]);
}

#[test]
fn font_parameter_offers_fonts() {
    let world = World {
        global: vec![],
        math: vec![],
        fonts: vec![plain(CompletionKind::Constant, "\"Libertinus Serif\"")],
    };
    let mut ctx = ctx_with(world, SyntaxTree { nodes: vec![] }, 0, "text(font: ");
    named_param_value_completions(&mut ctx, &Some(Func::Base(fill_signature())), "font");
    assert_eq!(
        ctx.completions,
        vec![
            plain(CompletionKind::Constant, "\"serif\""),
            plain(CompletionKind::Constant, "\"Libertinus Serif\""),
        ]
    );
}

#[test]
fn colon_before_cursor_adds_space() {
    let mut ctx = ctx_with(empty_world(), SyntaxTree { nodes: vec![] }, 0, "f(fill:");
    named_param_value_completions(&mut ctx, &Some(Func::Base(fill_signature())), "fill");
    let labels: Vec<Option<String>> = ctx.completions.iter().map(|c| c.apply.clone()).collect();
    assert_eq!(labels, vec![Some(s(" red")), Some(s(" blue"))]);
}

#[test]
fn unknown_or_positional_name_adds_nothing() {
    let mut ctx = ctx_with(empty_world(), SyntaxTree { nodes: vec![] }, 0, "f(x:");
    named_param_value_completions(&mut ctx, &Some(Func::Base(fill_signature())), "x");
    named_param_value_completions(&mut ctx, &Some(Func::Base(fill_signature())), "x");
    named_param_value_completions(&mut ctx, &Some(Func::Base(fill_signature())), "body");
    assert!(ctx.completions.is_empty());
}

#[test]
fn enrich_wraps_apply_or_label() {
    let mut ctx = ctx_with(empty_world(), SyntaxTree { nodes: vec![] }, 0, "");
    ctx.completions = vec![plain(CompletionKind::Variable, "x"), call("f")];
    ctx.enrich("[", "]");
    let applied: Vec<Option<String>> = ctx.completions.iter().map(|c| c.apply.clone()).collect();
    assert_eq!(applied, vec![Some(s("[x]")), Some(s("[f(${})]"))]);
    assert_eq!(ctx.completions[0].label, "x");
}

#[test]
fn world_returns_the_definitions() {
    let world = World { global: vec![(s("text"), Value::Func)], math: vec![], fonts: vec![] };
    let ctx = ctx_with(world, SyntaxTree { nodes: vec![] }, 0, "");
    assert_eq!(ctx.world().global.len(), 1);
    assert_eq!(ctx.world().global[0].0, "text");
}

#[test]
fn comma_space_leaves_earlier_entries_alone() {
    let mut ctx = ctx_with(empty_world(), SyntaxTree { nodes: vec![] }, 0, "f(a,");
    ctx.completions = vec![plain(CompletionKind::Variable, "earlier")];
    let args = vec![Arg::Named(s("a"))];
    param_completions(&mut ctx, &Some(Func::Base(ab_signature())), false, &args);
    let mut added = named_entry("b", "The b parameter.");
    added.apply = Some(s(" b: ${}"));
    assert_eq!(ctx.completions, vec![plain(CompletionKind::Variable, "earlier"), added]);
}

#[test]
fn colon_space_leaves_earlier_entries_alone() {
    let mut ctx = ctx_with(empty_world(), SyntaxTree { nodes: vec![] }, 0, "f(fill:");
    ctx.completions = vec![plain(CompletionKind::Variable, "earlier")];
    named_param_value_completions(&mut ctx, &Some(Func::Base(fill_signature())), "fill");
    let applied: Vec<Option<String>> = ctx.completions.iter().map(|c| c.apply.clone()).collect();
    assert_eq!(applied, vec![None, Some(s(" red")), Some(s(" blue"))]);
}

#[test]
fn enrich_from_skips_the_first_entries() {
    let mut ctx = ctx_with(empty_world(), SyntaxTree { nodes: vec![] }, 0, "");
    ctx.completions = vec![plain(CompletionKind::Variable, "x"), plain(CompletionKind::Variable, "y")];
    ctx.enrich_from(1, " ", "");
    let applied: Vec<Option<String>> = ctx.completions.iter().map(|c| c.apply.clone()).collect();
    assert_eq!(applied, vec![None, Some(s(" y"))]);
}

#[test]
fn unresolved_import_is_as_if_absent() {
    let world = World { global: vec![(s("sum"), Value::Func)], math: vec![], fonts: vec![] };
    let with_import = SyntaxTree {
        nodes: vec![
            node(NodeKind::Other, None, None),
            node(NodeKind::LetBinding { closure: false, bindings: vec![s("y")] }, Some(0), None),
            node(NodeKind::ModuleImport { has_imports: true, resolved: None }, Some(0), Some(1)),
            node(NodeKind::Other, Some(0), Some(2)),
        ],
    };
    let without = SyntaxTree {
        nodes: vec![
            node(NodeKind::Other, None, None),
            node(NodeKind::LetBinding { closure: false, bindings: vec![s("y")] }, Some(0), None),
            node(NodeKind::Other, Some(0), Some(1)),
            node(NodeKind::Other, Some(0), Some(2)),
        ],
    };
    let mut a = ctx_with(world, with_import, 3, "");
    let world2 = World { global: vec![(s("sum"), Value::Func)], math: vec![], fonts: vec![] };
    let mut b = ctx_with(world2, without, 3, "");
    a.scope_completions_(true, |_v: &Value| true);
    b.scope_completions_(true, |_v: &Value| true);
    assert_eq!(a.completions, b.completions);
    assert_eq!(a.completions, vec![call("sum"), plain(CompletionKind::Variable, "y")]);
}

#[test]
fn shadowing_across_scopes_takes_nearest() {
    // let x(a) = a; { let x = 1; <cursor> }
    let t = SyntaxTree {
        nodes: vec![
            node(NodeKind::Other, None, None),
            node(NodeKind::LetBinding { closure: true, bindings: vec![s("x")] }, Some(0), None),
            node(NodeKind::Other, Some(0), Some(1)),
            node(NodeKind::LetBinding { closure: false, bindings: vec![s("x")] }, Some(2), None),
            node(NodeKind::Other, Some(2), Some(3)),
        ],
    };
    assert_eq!(collect_bindings(&t, 4), vec![(s("x"), CompletionKind::Variable)]);
}
