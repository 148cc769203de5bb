//! What code generation is put together from: fragments of source text,
//! variable names, the statements that are emitted once, and calls.

use crate::call_graph::is_first_position;
use crate::call_graph::lemma_first_position;
use crate::call_graph::type_position;
use crate::call_graph::CallGraphEdgeMetadata;
use crate::language::names_by_id;
use crate::language::rendered_callable_path;
use crate::language::TypeView;
use crate::language::Callable;
use crate::language::PackageNames;
use crate::language::ResolvedType;
use crate::text::push_separated;
use crate::text::separated;
use crate::text::texts;
use crate::text::variable;
use crate::text::variable_name;
use indexmap::IndexMap;
use std::collections::HashMap;
use std::hash::RandomState;
use vstd::prelude::*;
use vstd::string::StringExecFns;

verus! {

/// Why no code could be generated.
#[derive(Clone, Copy, Debug, PartialEq, Eq, Hash, Structural)]
pub enum CodegenError {
    /// A type or a callable belongs to a package that has no name.
    UnknownPackage,
    /// A callable takes a value of a type that no edge into its node carries.
    MissingInput,
    /// A node is used before code was generated for it.
    MissingFragment,
    /// A callable takes the value of a node that forks on a result.
    MatchBranchingAsInput,
    /// A branch of a result is met where no fork has bound it.
    UnboundMatchResult,
    /// An input parameter has a type for which the handler has no parameter.
    UnboundInputParameter,
    /// A fork on a result is met before its turn.
    MisplacedMatchBranching,
    /// A fork on a result does not lead to one `Ok` and one `Err` branch, or
    /// nothing leads to it.
    MalformedMatchBranching,
    /// An invocation is that of a component that does not exist, or the root
    /// of the graph is no invocation.
    UnknownComponent,
    /// From a node no walk along the edges reaches a node without successors:
    /// the graph has a cycle.
    NoTerminalNode,
    /// Forks are nested deeper than the graph has nodes.
    NestingTooDeep,
    /// The variable names have run out.
    TooManyVariables,
    /// The generated source is not the source of a function.
    Syntax,
}

/// A piece of generated code that stands for the value of a node.
#[derive(Clone, Debug, PartialEq, Eq)]
pub enum Fragment {
    /// The name of the variable that holds the value.
    VariableReference(String),
    /// An expression that computes the value.
    Statement(String),
    /// Statements that end in an expression that computes the value; the text
    /// is what stands between the braces of the block.
    Block(String),
}

/// A [`Fragment`] as the verifier sees it.
pub enum FragmentView {
    VariableReference(Seq<char>),
    Statement(Seq<char>),
    Block(Seq<char>),
}

impl View for Fragment {
    type V = FragmentView;

    open spec fn view(&self) -> FragmentView {
        match self {
            Fragment::VariableReference(name) => FragmentView::VariableReference(name@),
            Fragment::Statement(expression) => FragmentView::Statement(expression@),
            Fragment::Block(statements) => FragmentView::Block(statements@),
        }
    }
}

impl FragmentView {
    /// The fragment where an expression is asked for.
    pub open spec fn expression(self) -> Seq<char> {
        match self {
            FragmentView::VariableReference(name) => name,
            FragmentView::Statement(expression) => expression,
            FragmentView::Block(statements) => "{ "@ + statements + " }"@,
        }
    }

    /// The fragment where the end of a function body is asked for: a block
    /// comes without its braces.
    pub open spec fn tail(self) -> Seq<char> {
        match self {
            FragmentView::VariableReference(name) => name,
            FragmentView::Statement(expression) => expression,
            FragmentView::Block(statements) => statements,
        }
    }

    /// The fragment as it is handed to a callable over an edge with `metadata`.
    pub open spec fn argument(self, metadata: CallGraphEdgeMetadata) -> Seq<char> {
        match metadata {
            CallGraphEdgeMetadata::Move => self.expression(),
            CallGraphEdgeMetadata::SharedBorrow => "&"@ + self.expression(),
        }
    }
}

impl Fragment {
    /// Appends the fragment to `out` as an expression.
    pub fn push_expression(&self, out: &mut String)
        ensures
            final(out)@ == old(out)@ + self@.expression(),
    {
        match self {
            Fragment::VariableReference(name) => out.append(name.as_str()),
            Fragment::Statement(expression) => out.append(expression.as_str()),
            Fragment::Block(statements) => {
                out.append("{ ");
                out.append(statements.as_str());
                out.append(" }");
                proof {
                    assert(old(out)@ + "{ "@ + statements@ + " }"@ == old(out)@ + ("{ "@
                        + statements@ + " }"@));
                }
            },
        }
    }

    /// Appends the fragment to `out` as the end of a function body.
    pub fn push_tail(&self, out: &mut String)
        ensures
            final(out)@ == old(out)@ + self@.tail(),
    {
        match self {
            Fragment::VariableReference(name) => out.append(name.as_str()),
            Fragment::Statement(expression) => out.append(expression.as_str()),
            Fragment::Block(statements) => out.append(statements.as_str()),
        }
    }

    /// The fragment as it is handed to a callable over an edge with `metadata`.
    pub fn argument(&self, metadata: CallGraphEdgeMetadata) -> (text: String)
        ensures
            text@ == self@.argument(metadata),
    {
        let mut text = String::new();
        match metadata {
            CallGraphEdgeMetadata::Move => {
                proof {
                    assert(Seq::<char>::empty() + self@.expression() == self@.expression());
                }
            },
            CallGraphEdgeMetadata::SharedBorrow => {
                text.append("&");
                proof {
                    assert(Seq::<char>::empty() + "&"@ == "&"@);
                }
            },
        }
        self.push_expression(&mut text);
        text
    }
}

/// Hands out variable names, each once: `v0`, `v1`, and so on.
#[derive(Clone, Copy, Debug)]
pub struct VariableNameGenerator {
    next: usize,
}

impl View for VariableNameGenerator {
    type V = nat;

    /// The number of the next name.
    closed spec fn view(&self) -> nat {
        self.next as nat
    }
}

impl VariableNameGenerator {
    /// A generator whose first name is `v0`.
    pub fn new() -> (generator: VariableNameGenerator)
        ensures
            generator@ == 0,
    {
        VariableNameGenerator { next: 0 }
    }

    /// A generator whose first name has the number `next`.
    pub fn starting_at(next: usize) -> (generator: VariableNameGenerator)
        ensures
            generator@ == next,
    {
        VariableNameGenerator { next }
    }

    /// The next name, or `None` where the names have run out.
    pub fn generate(&mut self) -> (name: Option<String>)
        ensures
            old(self)@ < usize::MAX ==> final(self)@ == old(self)@ + 1 && (name matches Some(n)
                && n@ == variable_name(old(self)@)),
            old(self)@ >= usize::MAX ==> name is None && final(self)@ == old(self)@,
    {
        if self.next == usize::MAX {
            return None;
        }
        let name = variable(self.next);
        self.next = self.next + 1;
        Some(name)
    }

    /// A generator that goes on from the same number.
    pub fn fork(&self) -> (copy: VariableNameGenerator)
        ensures
            copy@ == self@,
    {
        VariableNameGenerator { next: self.next }
    }
}

/// `indexmap::IndexMap`, opaque to the verifier.
#[verifier::external_type_specification]
#[verifier::external_body]
#[verifier::reject_recursive_types(K)]
#[verifier::reject_recursive_types(V)]
#[verifier::reject_recursive_types(S)]
pub struct ExIndexMap<K, V, S>(IndexMap<K, V, S>);

/// `ahash::RandomState`, the hasher of the map of fragments, opaque to the
/// verifier.
#[verifier::external_type_specification]
#[verifier::external_body]
pub struct ExAhashState(ahash::RandomState);

/// The fragment of each node for which code was generated: a `HashMap` with
/// the hasher of `ahash`.
pub type Blocks = HashMap<usize, Fragment, ahash::RandomState>;

/// The statements that are emitted once, each under the node that it binds,
/// in the order in which they were first entered.
pub type Bindings = IndexMap<usize, String, RandomState>;

/// What `bindings` holds: each node with its statement, in the order of the map.
pub uninterp spec fn binding_entries(bindings: Bindings) -> Seq<(usize, Seq<char>)>;

/// `entries` after `IndexMap::insert`: where the key is there, its value is
/// replaced in its place; where it is not, the pair comes last.
pub open spec fn entered(entries: Seq<(usize, Seq<char>)>, key: usize, value: Seq<char>) -> Seq<
    (usize, Seq<char>),
>
    decreases entries.len(),
{
    if entries.len() == 0 {
        seq![(key, value)]
    } else if entries[0].0 == key {
        seq![(key, value)] + entries.drop_first()
    } else {
        seq![entries[0]] + entered(entries.drop_first(), key, value)
    }
}

/// The statements of `entries`, in their order.
pub open spec fn statements(entries: Seq<(usize, Seq<char>)>) -> Seq<Seq<char>> {
    entries.map_values(|e: (usize, Seq<char>)| e.1)
}

/// What `blocks` holds: the fragment of each node that has one.
pub uninterp spec fn fragments(blocks: Blocks) -> Map<usize, FragmentView>;

/// Calls `HashMapExt::new` of `ahash`: a map without entries.
#[verifier::external_body]
pub(crate) fn blocks_new() -> (blocks: Blocks)
    ensures
        fragments(blocks) =~= Map::empty(),
{
    ahash::HashMapExt::new()
}

/// Calls `HashMap::insert`: the node has the fragment afterwards, whether it
/// had one or not, and the other nodes keep theirs.
#[verifier::external_body]
pub(crate) fn blocks_insert(blocks: &mut Blocks, node: usize, fragment: Fragment)
    ensures
        fragments(*final(blocks)) == fragments(*old(blocks)).insert(node, fragment@),
{
    blocks.insert(node, fragment);
}

/// Calls `HashMap::get`: the fragment of the node, if it has one.
#[verifier::external_body]
pub(crate) fn blocks_get<'a>(blocks: &'a Blocks, node: usize) -> (fragment: Option<&'a Fragment>)
    ensures
        fragment is Some <==> fragments(*blocks).contains_key(node),
        fragment matches Some(f) ==> f@ == fragments(*blocks)[node],
{
    blocks.get(&node)
}

/// Calls `Clone::clone` of `HashMap`: a map with the same entries.
#[verifier::external_body]
pub(crate) fn blocks_clone(blocks: &Blocks) -> (copy: Blocks)
    ensures
        fragments(copy) == fragments(*blocks),
{
    blocks.clone()
}

/// Calls `IndexMap::new`: a map without entries.
#[verifier::external_body]
pub(crate) fn bindings_new() -> (bindings: Bindings)
    ensures
        binding_entries(bindings) == Seq::<(usize, Seq<char>)>::empty(),
{
    IndexMap::new()
}

/// Calls `IndexMap::insert`: the value of a key that is there is replaced in
/// its place, and a new key comes last with its value.
#[verifier::external_body]
pub(crate) fn bindings_insert(bindings: &mut Bindings, node: usize, statement: String)
    ensures
        binding_entries(*final(bindings)) == entered(
            binding_entries(*old(bindings)),
            node,
            statement@,
        ),
{
    bindings.insert(node, statement);
}

/// Calls `IndexMap::values`, and copies the values in the order of the map.
#[verifier::external_body]
pub(crate) fn bindings_values(bindings: &Bindings) -> (values: Vec<String>)
    ensures
        texts(values@) == statements(binding_entries(*bindings)),
{
    bindings.values().cloned().collect()
}

/// A value that a callable can take: the node that produces it, its type, and
/// how the edge hands it over.
#[derive(Clone, Copy, Debug)]
pub struct Dependency<'a> {
    pub source: usize,
    pub type_: &'a ResolvedType,
    pub metadata: CallGraphEdgeMetadata,
}

/// A [`Dependency`] as the verifier sees it.
pub struct DependencyView {
    pub source: usize,
    pub type_: TypeView,
    pub metadata: CallGraphEdgeMetadata,
}

impl<'a> View for Dependency<'a> {
    type V = DependencyView;

    open spec fn view(&self) -> DependencyView {
        DependencyView { source: self.source, type_: self.type_@, metadata: self.metadata }
    }
}

/// `dependencies` as the verifier sees them.
pub open spec fn as_dependencies(dependencies: Seq<Dependency<'_>>) -> Seq<DependencyView> {
    dependencies.map_values(|d: Dependency<'_>| d@)
}

/// The types of `dependencies`, in their order.
pub open spec fn dependency_types(dependencies: Seq<DependencyView>) -> Seq<TypeView> {
    dependencies.map_values(|d: DependencyView| d.type_)
}

/// `types` as the verifier sees them.
pub open spec fn type_views(types: Seq<ResolvedType>) -> Seq<TypeView> {
    types.map_values(|t: ResolvedType| t@)
}

/// The argument for an input of the type `input`: the fragment of the first
/// dependency of that type, handed over as its edge says.
pub open spec fn argument_for(
    dependencies: Seq<DependencyView>,
    blocks: Map<usize, FragmentView>,
    input: TypeView,
) -> Result<Seq<char>, CodegenError> {
    match type_position(dependency_types(dependencies), input) {
        None => Err(CodegenError::MissingInput),
        Some(i) => if blocks.contains_key(dependencies[i].source) {
            Ok(blocks[dependencies[i].source].argument(dependencies[i].metadata))
        } else {
            Err(CodegenError::MissingFragment)
        },
    }
}

/// The arguments for `inputs`, in their order; the error of the first input
/// that has none.
pub open spec fn arguments_for(
    dependencies: Seq<DependencyView>,
    blocks: Map<usize, FragmentView>,
    inputs: Seq<TypeView>,
) -> Result<Seq<Seq<char>>, CodegenError>
    decreases inputs.len(),
{
    if inputs.len() == 0 {
        Ok(Seq::empty())
    } else {
        match arguments_for(dependencies, blocks, inputs.drop_last()) {
            Err(e) => Err(e),
            Ok(arguments) => match argument_for(dependencies, blocks, inputs.last()) {
                Err(e) => Err(e),
                Ok(argument) => Ok(arguments.push(argument)),
            },
        }
    }
}

/// The call of a callable at `path` with `arguments`, awaited where the
/// callable is asynchronous.
pub open spec fn call_syntax(path: Seq<char>, arguments: Seq<Seq<char>>, is_async: bool) -> Seq<
    char,
> {
    let call = path + "("@ + separated(arguments, ", "@) + ")"@;
    if is_async {
        call + ".await"@
    } else {
        call
    }
}

/// The call of `callable` on its `dependencies`: its path where packages go by
/// `names`, and for each of its inputs, in the order of its signature, the
/// argument that belongs to it.
pub open spec fn call_text(
    callable: Callable,
    names: Map<Seq<char>, Seq<char>>,
    dependencies: Seq<DependencyView>,
    blocks: Map<usize, FragmentView>,
) -> Result<Seq<char>, CodegenError> {
    match rendered_callable_path(callable, names) {
        None => Err(CodegenError::UnknownPackage),
        Some(path) => match arguments_for(dependencies, blocks, type_views(callable.inputs@)) {
            Err(e) => Err(e),
            Ok(arguments) => Ok(call_syntax(path, arguments, callable.is_async)),
        },
    }
}

/// `let name = expression;`
pub open spec fn let_syntax(name: Seq<char>, expression: Seq<char>) -> Seq<char> {
    "let "@ + name + " = "@ + expression + ";"@
}

/// Whether the outcome `got` of a function is the outcome `expected` that its
/// contract names.
pub open spec fn is_text(got: Result<String, CodegenError>, expected: Result<
    Seq<char>,
    CodegenError,
>) -> bool {
    match got {
        Ok(text) => expected == Ok::<Seq<char>, CodegenError>(text@),
        Err(e) => expected == Err::<Seq<char>, CodegenError>(e),
    }
}

/// Where the first dependency of the type `type_` stands, if there is one.
pub fn find_dependency(dependencies: &Vec<Dependency<'_>>, type_: &ResolvedType) -> (position:
    Option<usize>)
    ensures
        match position {
            Some(i) => type_position(dependency_types(as_dependencies(dependencies@)), type_@)
                == Some(i as int),
            None => type_position(dependency_types(as_dependencies(dependencies@)), type_@)
                is None,
        },
        position matches Some(i) ==> i < dependencies@.len(),
{
    let ghost types = dependency_types(as_dependencies(dependencies@));
    let mut i: usize = 0;
    while i < dependencies.len()
        invariant
            i <= dependencies.len(),
            types == dependency_types(as_dependencies(dependencies@)),
            forall|j: int| 0 <= j < i ==> #[trigger] types[j] != type_@,
        decreases dependencies.len() - i,
    {
        if dependencies[i].type_.is_same_as(type_) {
            proof {
                assert(types[i as int] == dependencies@[i as int].type_@);
                lemma_first_position(types, type_@, i as int);
            }
            return Some(i);
        }
        proof {
            assert(types[i as int] == dependencies@[i as int].type_@);
        }
        i = i + 1;
    }
    proof {
        assert forall|k: int| !is_first_position(types, type_@, k) by {}
    }
    None
}

/// The source of the call of `callable` on `dependencies`, whose fragments are
/// in `blocks`.
pub fn codegen_call_block(
    dependencies: &Vec<Dependency<'_>>,
    callable: &Callable,
    blocks: &Blocks,
    package_id2name: &PackageNames,
) -> (call: Result<String, CodegenError>)
    ensures
        is_text(
            call,
            call_text(
                *callable,
                names_by_id(*package_id2name),
                as_dependencies(dependencies@),
                fragments(*blocks),
            ),
        ),
{
    let mut call = String::new();
    if !callable.render_path_into(&mut call, package_id2name) {
        return Err(CodegenError::UnknownPackage);
    }
    let ghost path = rendered_callable_path(*callable, names_by_id(*package_id2name))->0;
    let ghost inputs = type_views(callable.inputs@);
    let ghost given = as_dependencies(dependencies@);
    proof {
        assert(Seq::<char>::empty() + path == path);
    }
    let mut arguments: Vec<String> = Vec::new();
    let mut i: usize = 0;
    proof {
        assert(inputs.take(0) =~= Seq::<TypeView>::empty());
        assert(texts(arguments@) =~= Seq::<Seq<char>>::empty());
    }
    while i < callable.inputs.len()
        invariant
            i <= callable.inputs.len(),
            inputs == type_views(callable.inputs@),
            given == as_dependencies(dependencies@),
            rendered_callable_path(*callable, names_by_id(*package_id2name)) == Some(path),
            call@ == path,
            arguments_for(given, fragments(*blocks), inputs.take(i as int)) == Ok::<
                Seq<Seq<char>>,
                CodegenError,
            >(texts(arguments@)),
        decreases callable.inputs.len() - i,
    {
        let ghost earlier = texts(arguments@);
        proof {
            assert(inputs.take(i + 1).drop_last() =~= inputs.take(i as int));
            assert(inputs.take(i + 1).last() == callable.inputs@[i as int]@);
            lemma_arguments_prefix(given, fragments(*blocks), inputs, i + 1);
        }
        let position = match find_dependency(dependencies, &callable.inputs[i]) {
            Some(position) => position,
            None => {
                return Err(CodegenError::MissingInput);
            },
        };
        let dependency = &dependencies[position];
        proof {
            assert(given[position as int] == dependency@);
        }
        let fragment = match blocks_get(blocks, dependency.source) {
            Some(fragment) => fragment,
            None => {
                return Err(CodegenError::MissingFragment);
            },
        };
        arguments.push(fragment.argument(dependency.metadata));
        proof {
            assert(texts(arguments@) =~= earlier.push(
                fragments(*blocks)[dependency.source].argument(dependency.metadata),
            ));
        }
        i = i + 1;
    }
    proof {
        assert(inputs.take(inputs.len() as int) =~= inputs);
    }
    call.append("(");
    push_separated(&mut call, &arguments, ", ");
    call.append(")");
    if callable.is_async {
        call.append(".await");
    }
    Ok(call)
}

/// An error among the arguments for the first inputs is the error of the
/// arguments for all inputs.
pub proof fn lemma_arguments_prefix(
    dependencies: Seq<DependencyView>,
    blocks: Map<usize, FragmentView>,
    inputs: Seq<TypeView>,
    n: int,
)
    requires
        0 <= n <= inputs.len(),
    ensures
        arguments_for(dependencies, blocks, inputs.take(n)) is Err ==> arguments_for(
            dependencies,
            blocks,
            inputs,
        ) == arguments_for(dependencies, blocks, inputs.take(n)),
    decreases inputs.len() - n,
{
    if n < inputs.len() {
        assert(inputs.take(n + 1).drop_last() =~= inputs.take(n));
        lemma_arguments_prefix(dependencies, blocks, inputs, n + 1);
    } else {
        assert(inputs.take(n) =~= inputs);
    }
}

} // verus!
