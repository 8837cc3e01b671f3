//! The data that the engine reads and writes: completion entries, the syntax
//! tree around the cursor, runtime values and function signatures.
use vstd::prelude::*;

verus! {

/// The category of a completion entry.
#[derive(Clone, Copy, Debug, PartialEq, Eq, Structural)]
pub enum CompletionKind {
    Func,
    Variable,
    Module,
    Type,
    Constant,
    Param,
}

/// The runtime category of a value, as far as completion needs it.
#[derive(Clone, Copy, Debug, PartialEq, Eq, Structural)]
pub enum Value {
    Func,
    Module,
    Type,
    Other,
}

/// The command that asks the editor to open the suggestion list again.
pub const TRIGGER_SUGGEST: &'static str = "editor.action.triggerSuggest";

/// The text inserted after a function name: a call with the cursor inside.
pub const CALL_TEMPLATE: &'static str = "(${})";

/// The text inserted after a parameter name.
pub const NAMED_TEMPLATE: &'static str = ": ${}";

/// One entry handed to the editor.
#[derive(Clone, Debug, PartialEq, Eq)]
pub struct Completion {
    pub kind: CompletionKind,
    pub label: String,
    pub apply: Option<String>,
    pub detail: Option<String>,
    pub command: Option<String>,
}

/// The mathematical value of a completion entry.
pub struct CompletionView {
    pub kind: CompletionKind,
    pub label: Seq<char>,
    pub apply: Option<Seq<char>>,
    pub detail: Option<Seq<char>>,
    pub command: Option<Seq<char>>,
}

pub open spec fn opt_view(o: Option<String>) -> Option<Seq<char>> {
    match o {
        Some(s) => Some(s@),
        None => None,
    }
}

impl View for Completion {
    type V = CompletionView;

    open spec fn view(&self) -> CompletionView {
        CompletionView {
            kind: self.kind,
            label: self.label@,
            apply: opt_view(self.apply),
            detail: opt_view(self.detail),
            command: opt_view(self.command),
        }
    }
}

/// The views of a sequence of entries.
pub open spec fn views(s: Seq<Completion>) -> Seq<CompletionView> {
    s.map_values(|c: Completion| c@)
}

pub fn clone_opt(o: &Option<String>) -> (r: Option<String>)
    ensures
        opt_view(r) == opt_view(*o),
{
    match o {
        Some(s) => Some(s.clone()),
        None => None,
    }
}

impl Completion {
    /// A copy of the entry.
    pub fn duplicate(&self) -> (r: Completion)
        ensures
            r@ == self@,
    {
        Completion {
            kind: self.kind,
            label: self.label.clone(),
            apply: clone_opt(&self.apply),
            detail: clone_opt(&self.detail),
            command: clone_opt(&self.command),
        }
    }
}

/// The kind of entry that a value of the given category gets.
pub open spec fn value_kind(v: Value) -> CompletionKind {
    match v {
        Value::Func => CompletionKind::Func,
        Value::Module => CompletionKind::Module,
        Value::Type => CompletionKind::Type,
        Value::Other => CompletionKind::Constant,
    }
}

pub fn kind_of_value(v: Value) -> (r: CompletionKind)
    ensures
        r == value_kind(v),
{
    match v {
        Value::Func => CompletionKind::Func,
        Value::Module => CompletionKind::Module,
        Value::Type => CompletionKind::Type,
        Value::Other => CompletionKind::Constant,
    }
}

/// A module that an import resolved to: its own name and the names it exports.
pub struct ResolvedModule {
    pub name: Option<String>,
    pub scope: Option<Vec<(String, Value)>>,
}

/// One parameter of a function literal.
pub enum Param {
    /// A positional parameter, with the identifiers its pattern binds.
    Pos(Vec<String>),
    /// A named parameter.
    Named(String),
    /// A spread parameter, with its sink identifier if it has one.
    Spread(Option<String>),
}

/// What a node of the syntax tree is, with the parts of it that completion reads.
pub enum NodeKind {
    /// A `let` declaration; `closure` is set when its right-hand side is a
    /// function literal.
    LetBinding { closure: bool, bindings: Vec<String> },
    /// A module import; `resolved` is what the import resolver made of its
    /// source, `None` where it failed.
    ModuleImport { has_imports: bool, resolved: Option<ResolvedModule> },
    /// A `for` loop, with the identifiers its pattern binds.
    ForLoop { pattern: Vec<String> },
    /// A function literal.
    Closure { params: Vec<Param> },
    /// The `in` keyword.
    In,
    Equation,
    Math,
    MathFrac,
    MathAttach,
    Other,
}

/// A node, with the positions of its parent and of its previous sibling.
pub struct Node {
    pub kind: NodeKind,
    pub parent: Option<usize>,
    pub prev: Option<usize>,
}

/// A syntax tree stored in preorder: a parent and a previous sibling always
/// come before the node.
pub struct SyntaxTree {
    pub nodes: Vec<Node>,
}

pub open spec fn points_below(o: Option<usize>, i: int) -> bool {
    match o {
        Some(p) => (p as int) < i,
        None => true,
    }
}

impl SyntaxTree {
    /// Every link points to an earlier node.
    pub open spec fn wf(&self) -> bool {
        forall|i: int|
            0 <= i < self.nodes@.len() ==> points_below(#[trigger] self.nodes@[i].parent, i)
                && points_below(self.nodes@[i].prev, i)
    }
}

/// The builtin definitions and the fonts that a document can use.
pub struct World {
    pub global: Vec<(String, Value)>,
    pub math: Vec<(String, Value)>,
    pub fonts: Vec<Completion>,
}

/// A parameter of a function signature. `docs` is its documentation as one
/// plain sentence; `input` holds the value completions that its input type
/// suggests.
pub struct ParamInfo {
    pub name: String,
    pub docs: String,
    pub positional: bool,
    pub named: bool,
    pub settable: bool,
    pub expr: Option<String>,
    pub input: Vec<Completion>,
}

/// The primary signature of a function: its parameters in declaration order.
pub struct Signature {
    pub named: Vec<ParamInfo>,
}

/// The parameters form a map keyed by name: no two share a name. The values
/// that an input type suggests are values, never parameter entries.
pub open spec fn params_wf(ps: Seq<ParamInfo>) -> bool {
    &&& forall|i: int, j: int|
        0 <= i < j < ps.len() ==> #[trigger] ps[i].name@ != #[trigger] ps[j].name@
    &&& forall|i: int, k: int|
        0 <= i < ps.len() && 0 <= k < ps[i].input@.len() ==> (#[trigger] ps[i].input@[k]).kind
            != CompletionKind::Param
}

impl Signature {
    pub open spec fn wf(&self) -> bool {
        params_wf(self.named@)
    }
}

/// A function: a base function, or one with some arguments already applied.
pub enum Func {
    Base(Signature),
    With(Box<Func>, Vec<Value>),
}

/// An argument at a call site.
pub enum Arg {
    Pos,
    Named(String),
    Spread,
}

/// The state of one completion request.
pub struct CompletionContext {
    pub world: World,
    pub tree: SyntaxTree,
    pub leaf: usize,
    pub before: String,
    pub completions: Vec<Completion>,
}

impl CompletionContext {
    /// The definitions that the document sees.
    pub fn world(&self) -> (r: &World)
        ensures
            *r == self.world,
    {
        &self.world
    }

    /// The request is unchanged but for its entries.
    pub open spec fn same_request(&self, other: &CompletionContext) -> bool {
        self.world == other.world && self.tree == other.tree && self.leaf == other.leaf
            && self.before == other.before
    }
}

} // verus!
