use vstd::prelude::*;

use crate::classify::{classify, display_of, DisplayValue};
use crate::error::DtbError;

verus! {

/// One item of a blob's structure block.
#[derive(Debug, Clone, PartialEq, Eq)]
pub enum Token {
    BeginNode { name: Vec<u8> },
    Property { name: Vec<u8>, value: Vec<u8> },
    EndNode,
    End,
}

pub enum TokenModel {
    BeginNode(Seq<u8>),
    Property(Seq<u8>, Seq<u8>),
    EndNode,
    End,
}

impl View for Token {
    type V = TokenModel;

    open spec fn view(&self) -> TokenModel {
        match self {
            Token::BeginNode { name } => TokenModel::BeginNode(name@),
            Token::Property { name, value } => TokenModel::Property(name@, value@),
            Token::EndNode => TokenModel::EndNode,
            Token::End => TokenModel::End,
        }
    }
}

pub open spec fn token_models(ts: Seq<Token>) -> Seq<TokenModel> {
    ts.map_values(|t: Token| t@)
}

/// A node of the arena: its name and the index of its parent (none for the root).
#[derive(Debug, Clone, PartialEq, Eq)]
pub struct Node {
    pub name: Vec<u8>,
    pub parent: Option<usize>,
}

/// A property with the node that owns it, its raw value and how that value is displayed.
#[derive(Debug, Clone, PartialEq, Eq)]
pub struct Property {
    pub node: usize,
    pub name: Vec<u8>,
    pub value: Vec<u8>,
    pub display: DisplayValue,
}

pub struct NodeModel {
    pub name: Seq<u8>,
    pub parent: Option<int>,
}

pub struct PropModel {
    pub node: int,
    pub name: Seq<u8>,
    pub value: Seq<u8>,
}

pub open spec fn opt_int(o: Option<usize>) -> Option<int> {
    match o {
        Some(p) => Some(p as int),
        None => None,
    }
}

impl View for Node {
    type V = NodeModel;

    open spec fn view(&self) -> NodeModel {
        NodeModel { name: self.name@, parent: opt_int(self.parent) }
    }
}

impl View for Property {
    type V = PropModel;

    open spec fn view(&self) -> PropModel {
        PropModel { node: self.node as int, name: self.name@, value: self.value@ }
    }
}

/// A built tree: nodes in document order (the root first) and properties in document order.
#[derive(Debug, Clone, PartialEq, Eq)]
pub struct Tree {
    pub nodes: Vec<Node>,
    pub properties: Vec<Property>,
}

pub struct TreeModel {
    pub nodes: Seq<NodeModel>,
    pub props: Seq<PropModel>,
}

/// Exactly one root, at index 0; every other node's parent comes before it; every property
/// belongs to a node.
pub open spec fn tree_wf(t: TreeModel) -> bool {
    &&& t.nodes.len() > 0
    &&& t.nodes[0].parent is None
    &&& forall|k: int|
        0 < k < t.nodes.len() ==> (#[trigger] t.nodes[k]).parent is Some && 0 <= t.nodes[k].parent->0
            < k
    &&& forall|p: int| 0 <= p < t.props.len() ==> 0 <= (#[trigger] t.props[p]).node < t.nodes.len()
}

pub open spec fn displays_match(props: Seq<Property>) -> bool {
    forall|p: int| 0 <= p < props.len() ==> (#[trigger] props[p]).display@ == display_of(props[p].value@)
}

impl View for Tree {
    type V = TreeModel;

    open spec fn view(&self) -> TreeModel {
        TreeModel {
            nodes: self.nodes@.map_values(|n: Node| n@),
            props: self.properties@.map_values(|p: Property| p@),
        }
    }
}

impl Tree {
    pub open spec fn wf(&self) -> bool {
        tree_wf(self@) && displays_match(self.properties@)
    }

    /// The number of nodes.
    pub fn node_count(&self) -> (r: usize)
        ensures
            r == self@.nodes.len(),
    {
        self.nodes.len()
    }

    /// The children of node `i`, in document order.
    pub fn children(&self, i: usize) -> (r: Vec<usize>)
        ensures
            forall|k: int| 0 <= k < r@.len() ==> #[trigger] r@[k] < self@.nodes.len()
                && self@.nodes[r@[k] as int].parent == Some(i as int),
            forall|k: int, l: int| 0 <= k < l < r@.len() ==> r@[k] < r@[l],
            forall|c: int|
                0 <= c < self@.nodes.len() && #[trigger] self@.nodes[c].parent == Some(i as int)
                    ==> r@.contains(c as usize),
    {
        let n = self.nodes.len();
        let mut r: Vec<usize> = Vec::new();
        let mut c: usize = 0;
        while c < n
            invariant
                n == self@.nodes.len(),
                c <= n,
                forall|k: int| 0 <= k < r@.len() ==> #[trigger] r@[k] < c
                    && self@.nodes[r@[k] as int].parent == Some(i as int),
                forall|k: int, l: int| 0 <= k < l < r@.len() ==> r@[k] < r@[l],
                forall|d: int|
                    0 <= d < c && #[trigger] self@.nodes[d].parent == Some(i as int)
                        ==> r@.contains(d as usize),
            decreases n - c,
        {
            let ghost before = r@;
            if self.nodes[c].parent == Some(i) {
                r.push(c);
                assert(r@[before.len() as int] == c);
            }
            assert forall|d: int|
                0 <= d < c + 1 && #[trigger] self@.nodes[d].parent == Some(i as int)
                    implies r@.contains(d as usize) by {
                if d < c {
                    let k = choose|k: int| 0 <= k < before.len() && before[k] == d as usize;
                    assert(r@[k] == d as usize);
                } else {
                    assert(r@[r@.len() - 1] == d as usize);
                }
            }
            c = c + 1;
        }
        r
    }

    /// The properties of node `i`, as indices into `properties`, in document order.
    pub fn properties_of(&self, i: usize) -> (r: Vec<usize>)
        ensures
            forall|k: int| 0 <= k < r@.len() ==> #[trigger] r@[k] < self@.props.len()
                && self@.props[r@[k] as int].node == i,
            forall|k: int, l: int| 0 <= k < l < r@.len() ==> r@[k] < r@[l],
            forall|p: int|
                0 <= p < self@.props.len() && #[trigger] self@.props[p].node == i
                    ==> r@.contains(p as usize),
    {
        let n = self.properties.len();
        let mut r: Vec<usize> = Vec::new();
        let mut p: usize = 0;
        while p < n
            invariant
                n == self@.props.len(),
                p <= n,
                forall|k: int| 0 <= k < r@.len() ==> #[trigger] r@[k] < p
                    && self@.props[r@[k] as int].node == i,
                forall|k: int, l: int| 0 <= k < l < r@.len() ==> r@[k] < r@[l],
                forall|d: int|
                    0 <= d < p && #[trigger] self@.props[d].node == i ==> r@.contains(d as usize),
            decreases n - p,
        {
            let ghost before = r@;
            if self.properties[p].node == i {
                r.push(p);
                assert(r@[before.len() as int] == p);
            }
            assert forall|d: int|
                0 <= d < p + 1 && #[trigger] self@.props[d].node == i implies r@.contains(
                    d as usize,
                ) by {
                if d < p {
                    let k = choose|k: int| 0 <= k < before.len() && before[k] == d as usize;
                    assert(r@[k] == d as usize);
                } else {
                    assert(r@[r@.len() - 1] == d as usize);
                }
            }
            p = p + 1;
        }
        r
    }
}

/// The state of a build: nodes and properties so far, and the indices of the open nodes.
pub struct BuildModel {
    pub nodes: Seq<NodeModel>,
    pub props: Seq<PropModel>,
    pub stack: Seq<int>,
    /// Content has come outside the root node: a second top-level node or a stray property.
    pub stray: bool,
}

/// What one token does to a build: it stays open, it is finished, or it fails.
pub enum StepModel {
    Open(BuildModel),
    Closed(BuildModel),
    Failed(DtbError),
}

pub open spec fn empty_build() -> BuildModel {
    BuildModel { nodes: Seq::empty(), props: Seq::empty(), stack: Seq::empty(), stray: false }
}

pub open spec fn step(s: BuildModel, t: TokenModel) -> StepModel {
    match t {
        TokenModel::BeginNode(name) => StepModel::Open(
            BuildModel {
                nodes: s.nodes.push(
                    NodeModel {
                        name,
                        parent: if s.stack.len() == 0 {
                            None
                        } else {
                            Some(s.stack.last())
                        },
                    },
                ),
                props: s.props,
                stack: s.stack.push(s.nodes.len() as int),
                stray: s.stray || (s.stack.len() == 0 && s.nodes.len() > 0),
            },
        ),
        TokenModel::Property(name, value) => if s.stack.len() == 0 {
            StepModel::Open(BuildModel { stray: true, ..s })
        } else {
            StepModel::Open(
                BuildModel {
                    props: s.props.push(PropModel { node: s.stack.last(), name, value }),
                    ..s
                },
            )
        },
        TokenModel::EndNode => if s.stack.len() == 0 {
            StepModel::Failed(DtbError::UnbalancedTree)
        } else {
            StepModel::Open(BuildModel { stack: s.stack.drop_last(), ..s })
        },
        TokenModel::End => if s.stack.len() > 0 {
            StepModel::Failed(DtbError::UnclosedNodes)
        } else if s.nodes.len() == 0 || s.stray {
            StepModel::Failed(DtbError::UnbalancedTree)
        } else {
            StepModel::Closed(s)
        },
    }
}

/// The tokens applied in order until the build finishes or fails.
pub open spec fn run(s: BuildModel, toks: Seq<TokenModel>) -> StepModel
    decreases toks.len(),
{
    if toks.len() == 0 {
        StepModel::Open(s)
    } else {
        match step(s, toks[0]) {
            StepModel::Open(s2) => run(s2, toks.drop_first()),
            r => r,
        }
    }
}

/// The tree that a token stream describes, or the error it gives. A stream that stops
/// before its end token is cut short.
pub open spec fn build_model(toks: Seq<TokenModel>) -> Result<TreeModel, DtbError> {
    match run(empty_build(), toks) {
        StepModel::Closed(s) => Ok(TreeModel { nodes: s.nodes, props: s.props }),
        StepModel::Failed(e) => Err(e),
        StepModel::Open(_) => Err(DtbError::UnexpectedEof),
    }
}

/// Node `k` of a build has no parent when it is the first node, a parent before it when it
/// lies under another node, and none otherwise only once content has strayed.
pub open spec fn node_placed(s: BuildModel, k: int) -> bool {
    if k == 0 {
        s.nodes[k].parent is None
    } else if s.nodes[k].parent is Some {
        0 <= s.nodes[k].parent->0 < k
    } else {
        s.stray
    }
}

pub open spec fn build_wf(s: BuildModel) -> bool {
    &&& forall|k: int| 0 <= k < s.nodes.len() ==> #[trigger] node_placed(s, k)
    &&& forall|j: int| 0 <= j < s.stack.len() ==> 0 <= #[trigger] s.stack[j] < s.nodes.len()
    &&& s.nodes.len() == 0 ==> s.stack.len() == 0
    &&& forall|p: int| 0 <= p < s.props.len() ==> 0 <= (#[trigger] s.props[p]).node < s.nodes.len()
}

pub proof fn lemma_step_wf(s: BuildModel, t: TokenModel)
    requires
        build_wf(s),
    ensures
        step(s, t) matches StepModel::Open(s2) ==> build_wf(s2),
        step(s, t) matches StepModel::Closed(s2) ==> build_wf(s2) && s2.stack.len() == 0
            && !s2.stray && tree_wf(TreeModel { nodes: s2.nodes, props: s2.props }),
{
    match step(s, t) {
        StepModel::Open(s2) => {
            assert forall|k: int| 0 <= k < s2.nodes.len() implies #[trigger] node_placed(s2, k) by {
                if k < s.nodes.len() {
                    assert(s2.nodes[k] == s.nodes[k]);
                    assert(node_placed(s, k));
                }
            }
        },
        StepModel::Closed(s2) => {
            assert(s2 == s);
            assert(node_placed(s, 0));
            assert forall|k: int| 0 < k < s2.nodes.len() implies (#[trigger] s2.nodes[k]).parent is Some
                && 0 <= s2.nodes[k].parent->0 < k by {
                assert(node_placed(s, k));
            }
        },
        _ => {},
    }
}

/// A build in progress: the arena so far and the stack of open nodes.
pub struct TreeBuilder {
    pub nodes: Vec<Node>,
    pub properties: Vec<Property>,
    pub stack: Vec<usize>,
    pub stray: bool,
}

impl View for TreeBuilder {
    type V = BuildModel;

    open spec fn view(&self) -> BuildModel {
        BuildModel {
            nodes: self.nodes@.map_values(|n: Node| n@),
            props: self.properties@.map_values(|p: Property| p@),
            stack: self.stack@.map_values(|i: usize| i as int),
            stray: self.stray,
        }
    }
}

impl TreeBuilder {
    pub open spec fn wf(&self) -> bool {
        build_wf(self@) && displays_match(self.properties@)
    }

    /// A build with nothing in it yet.
    pub fn new() -> (r: TreeBuilder)
        ensures
            r@ == empty_build(),
            r.wf(),
    {
        let r = TreeBuilder {
            nodes: Vec::new(),
            properties: Vec::new(),
            stack: Vec::new(),
            stray: false,
        };
        assert(r@.nodes =~= Seq::empty());
        assert(r@.props =~= Seq::empty());
        assert(r@.stack =~= Seq::empty());
        r
    }

    /// Applies one token: `Ok(false)` while nodes stay to be read, `Ok(true)` once the
    /// structure has ended with a complete tree.
    pub fn feed(&mut self, tok: Token) -> (r: Result<bool, DtbError>)
        requires
            old(self).wf(),
        ensures
            match step(old(self)@, tok@) {
                StepModel::Open(s) => r == Ok::<bool, DtbError>(false) && final(self)@ == s
                    && final(self).wf(),
                StepModel::Closed(s) => r == Ok::<bool, DtbError>(true) && final(self)@ == s
                    && final(self).wf(),
                StepModel::Failed(e) => r == Err::<bool, DtbError>(e),
            },
    {
        proof {
            lemma_step_wf(self@, tok@);
        }
        let ghost s = self@;
        match tok {
            Token::BeginNode { name } => {
                let depth = self.stack.len();
                let count = self.nodes.len();
                if depth == 0 && count > 0 {
                    self.stray = true;
                }
                let parent = if depth == 0 {
                    None
                } else {
                    Some(self.stack[depth - 1])
                };
                self.nodes.push(Node { name, parent });
                self.stack.push(count);
                assert(self@.nodes =~= s.nodes.push(
                    NodeModel { name: name@, parent: opt_int(parent) },
                ));
                assert(self@.stack =~= s.stack.push(count as int));
                Ok(false)
            },
            Token::Property { name, value } => {
                let depth = self.stack.len();
                if depth == 0 {
                    self.stray = true;
                    return Ok(false);
                }
                let node = self.stack[depth - 1];
                let display = classify(&value);
                let ghost old_props = self.properties@;
                self.properties.push(Property { node, name, value, display });
                assert(self@.props =~= s.props.push(
                    PropModel { node: node as int, name: name@, value: value@ },
                ));
                assert(self@.nodes =~= s.nodes);
                assert(self@.stack =~= s.stack);
                assert forall|p: int| 0 <= p < self.properties@.len() implies (
                #[trigger] self.properties@[p]).display@ == display_of(self.properties@[p].value@) by {
                    if p < old_props.len() {
                        assert(self.properties@[p] == old_props[p]);
                    }
                }
                Ok(false)
            },
            Token::EndNode => {
                if self.stack.len() == 0 {
                    return Err(DtbError::UnbalancedTree);
                }
                self.stack.pop();
                assert(self@.stack =~= s.stack.drop_last());
                Ok(false)
            },
            Token::End => {
                if self.stack.len() > 0 {
                    return Err(DtbError::UnclosedNodes);
                }
                if self.nodes.len() == 0 || self.stray {
                    return Err(DtbError::UnbalancedTree);
                }
                Ok(true)
            },
        }
    }

    /// The finished tree.
    pub fn finish(self) -> (t: Tree)
        requires
            self.wf(),
            self@.nodes.len() > 0,
            self@.stack.len() == 0,
            !self@.stray,
        ensures
            t@ == (TreeModel { nodes: self@.nodes, props: self@.props }),
            t.wf(),
    {
        proof {
            assert(node_placed(self@, 0));
            assert forall|k: int| 0 < k < self@.nodes.len() implies (#[trigger] self@.nodes[k]).parent
                is Some && 0 <= self@.nodes[k].parent->0 < k by {
                assert(node_placed(self@, k));
            }
        }
        Tree { nodes: self.nodes, properties: self.properties }
    }
}

pub proof fn lemma_run_snoc(s: BuildModel, a: Seq<TokenModel>, t: TokenModel)
    ensures
        run(s, a.push(t)) == match run(s, a) {
            StepModel::Open(s2) => step(s2, t),
            r => r,
        },
    decreases a.len(),
{
    if a.len() == 0 {
        assert(a.push(t).drop_first() =~= Seq::<TokenModel>::empty());
        assert(a.push(t)[0] == t);
        if let StepModel::Open(s2) = step(s, t) {
            assert(run(s2, Seq::<TokenModel>::empty()) == StepModel::Open(s2));
        }
    } else {
        assert(a.push(t)[0] == a[0]);
        assert(a.push(t).drop_first() =~= a.drop_first().push(t));
        if let StepModel::Open(s2) = step(s, a[0]) {
            lemma_run_snoc(s2, a.drop_first(), t);
        }
    }
}

pub proof fn lemma_run_stops(s: BuildModel, a: Seq<TokenModel>, b: Seq<TokenModel>)
    requires
        !(run(s, a) is Open),
    ensures
        run(s, a + b) == run(s, a),
    decreases a.len(),
{
    assert(a.len() > 0);
    assert((a + b)[0] == a[0]);
    assert((a + b).drop_first() =~= a.drop_first() + b);
    if let StepModel::Open(s2) = step(s, a[0]) {
        lemma_run_stops(s2, a.drop_first(), b);
    }
}

/// Builds the tree that a token sequence describes.
pub fn build_from_tokens(tokens: Vec<Token>) -> (r: Result<Tree, DtbError>)
    ensures
        match build_model(token_models(tokens@)) {
            Ok(m) => r is Ok && r->Ok_0@ == m && r->Ok_0.wf(),
            Err(e) => r == Err::<Tree, DtbError>(e),
        },
{
    let ghost toks = token_models(tokens@);
    let mut builder = TreeBuilder::new();
    let mut rest = tokens;
    let total = rest.len();
    let ghost n = toks.len();
    let mut i: usize = 0;
    while rest.len() > 0
        invariant
            builder.wf(),
            i + rest@.len() == n,
            n == toks.len(),
            n == total,
            toks == token_models(tokens@),
            forall|j: int| 0 <= j < rest@.len() ==> (#[trigger] rest@[j])@ == toks[i + j],
            run(empty_build(), toks.take(i as int)) == StepModel::Open(builder@),
        decreases rest@.len(),
    {
        let ghost prev = rest@;
        let tok = rest.remove(0);
        assert(tok@ == toks[i as int]);
        assert forall|j: int| 0 <= j < rest@.len() implies (#[trigger] rest@[j])@ == toks[i + 1
            + j] by {
            assert(rest@[j] == prev[j + 1]);
        }
        proof {
            lemma_run_snoc(empty_build(), toks.take(i as int), tok@);
            assert(toks.take(i as int).push(tok@) =~= toks.take(i + 1));
        }
        let ghost before = builder@;
        match builder.feed(tok) {
            Ok(false) => {},
            Ok(true) => {
                proof {
                    lemma_run_stops(empty_build(), toks.take(i + 1), toks.skip(i + 1));
                    assert(toks.take(i + 1) + toks.skip(i + 1) =~= toks);
                    lemma_step_wf(before, toks[i as int]);
                }
                let t = builder.finish();
                return Ok(t);
            },
            Err(e) => {
                proof {
                    lemma_run_stops(empty_build(), toks.take(i + 1), toks.skip(i + 1));
                    assert(toks.take(i + 1) + toks.skip(i + 1) =~= toks);
                }
                return Err(e);
            },
        }
        i = i + 1;
    }
    assert(toks.take(i as int) =~= toks);
    Err(DtbError::UnexpectedEof)
}

/// The names of the nodes that a token stream opens before its end token, in order.
pub open spec fn opened_names(toks: Seq<TokenModel>) -> Seq<Seq<u8>>
    decreases toks.len(),
{
    if toks.len() == 0 {
        Seq::empty()
    } else {
        match toks[0] {
            TokenModel::End => Seq::empty(),
            TokenModel::BeginNode(name) => seq![name] + opened_names(toks.drop_first()),
            _ => opened_names(toks.drop_first()),
        }
    }
}

/// The properties, as name and value, that a token stream holds before its end token.
pub open spec fn listed_properties(toks: Seq<TokenModel>) -> Seq<(Seq<u8>, Seq<u8>)>
    decreases toks.len(),
{
    if toks.len() == 0 {
        Seq::empty()
    } else {
        match toks[0] {
            TokenModel::End => Seq::empty(),
            TokenModel::Property(name, value) => seq![(name, value)] + listed_properties(
                toks.drop_first(),
            ),
            _ => listed_properties(toks.drop_first()),
        }
    }
}

/// How many tokens of one kind (true: node begins, false: node ends) come before the end token.
pub open spec fn count_marks(toks: Seq<TokenModel>, begins: bool) -> nat
    decreases toks.len(),
{
    if toks.len() == 0 {
        0
    } else {
        match toks[0] {
            TokenModel::End => 0,
            TokenModel::BeginNode(_) => (if begins {
                1nat
            } else {
                0nat
            }) + count_marks(toks.drop_first(), begins),
            TokenModel::EndNode => (if begins {
                0nat
            } else {
                1nat
            }) + count_marks(toks.drop_first(), begins),
            _ => count_marks(toks.drop_first(), begins),
        }
    }
}

pub open spec fn node_names(nodes: Seq<NodeModel>) -> Seq<Seq<u8>> {
    nodes.map_values(|n: NodeModel| n.name)
}

pub open spec fn property_pairs(props: Seq<PropModel>) -> Seq<(Seq<u8>, Seq<u8>)> {
    props.map_values(|p: PropModel| (p.name, p.value))
}

proof fn lemma_run_walk(s: BuildModel, toks: Seq<TokenModel>)
    requires
        run(s, toks) is Closed,
    ensures
        node_names(run(s, toks)->Closed_0.nodes) == node_names(s.nodes) + opened_names(toks),
        property_pairs(run(s, toks)->Closed_0.props) == property_pairs(s.props) + listed_properties(
            toks,
        ),
        s.stack.len() + count_marks(toks, true) == count_marks(toks, false),
        !s.stray,
    decreases toks.len(),
{
    assert(toks.len() > 0);
    let t = toks[0];
    match step(s, t) {
        StepModel::Open(s2) => {
            lemma_run_walk(s2, toks.drop_first());
            match t {
                TokenModel::BeginNode(name) => {
                    assert(node_names(s2.nodes) =~= node_names(s.nodes).push(name));
                    assert(seq![name] + opened_names(toks.drop_first()) == opened_names(toks));
                    assert(node_names(s.nodes).push(name) + opened_names(toks.drop_first())
                        =~= node_names(s.nodes) + opened_names(toks));
                    assert(property_pairs(s2.props) =~= property_pairs(s.props));
                },
                TokenModel::Property(name, value) => {
                    assert(property_pairs(s2.props) =~= property_pairs(s.props).push((name, value)));
                    assert(property_pairs(s.props).push((name, value)) + listed_properties(
                        toks.drop_first(),
                    ) =~= property_pairs(s.props) + listed_properties(toks));
                    assert(node_names(s2.nodes) =~= node_names(s.nodes));
                },
                _ => {
                    assert(node_names(s2.nodes) =~= node_names(s.nodes));
                    assert(property_pairs(s2.props) =~= property_pairs(s.props));
                },
            }
        },
        _ => {
            assert(node_names(s.nodes) + opened_names(toks) =~= node_names(s.nodes));
            assert(property_pairs(s.props) + listed_properties(toks) =~= property_pairs(s.props));
        },
    }
}

/// A built tree has one node for each node that the token stream opens and one property for
/// each property it lists, both in the order of the stream.
pub proof fn lemma_build_follows_stream(toks: Seq<TokenModel>)
    requires
        build_model(toks) is Ok,
    ensures
        node_names(build_model(toks)->Ok_0.nodes) == opened_names(toks),
        property_pairs(build_model(toks)->Ok_0.props) == listed_properties(toks),
        build_model(toks)->Ok_0.nodes.len() == opened_names(toks).len(),
        build_model(toks)->Ok_0.props.len() == listed_properties(toks).len(),
{
    lemma_run_walk(empty_build(), toks);
    assert(node_names(empty_build().nodes) =~= Seq::empty());
    assert(property_pairs(empty_build().props) =~= Seq::empty());
    assert(Seq::<Seq<u8>>::empty() + opened_names(toks) =~= opened_names(toks));
    assert(Seq::<(Seq<u8>, Seq<u8>)>::empty() + listed_properties(toks) =~= listed_properties(toks));
    assert(node_names(build_model(toks)->Ok_0.nodes).len() == build_model(toks)->Ok_0.nodes.len());
    assert(property_pairs(build_model(toks)->Ok_0.props).len() == build_model(toks)->Ok_0.props.len());
}

proof fn lemma_run_keeps_wf(s: BuildModel, toks: Seq<TokenModel>)
    requires
        build_wf(s),
    ensures
        run(s, toks) matches StepModel::Closed(f) ==> build_wf(f) && f.stack.len() == 0
            && tree_wf(TreeModel { nodes: f.nodes, props: f.props }),
        run(s, toks) matches StepModel::Open(f) ==> build_wf(f),
    decreases toks.len(),
{
    if toks.len() > 0 {
        lemma_step_wf(s, toks[0]);
        if let StepModel::Open(s2) = step(s, toks[0]) {
            lemma_run_keeps_wf(s2, toks.drop_first());
        }
    }
}

/// Of a token stream that builds, the node begins and node ends before its end token are
/// equally many, and the tree has exactly one root: node 0, the ancestor of all the others.
pub proof fn lemma_build_balanced(toks: Seq<TokenModel>)
    requires
        build_model(toks) is Ok,
    ensures
        count_marks(toks, true) == count_marks(toks, false),
        tree_wf(build_model(toks)->Ok_0),
{
    lemma_run_walk(empty_build(), toks);
    lemma_run_keeps_wf(empty_build(), toks);
}

/// No end token among the first `i` tokens.
pub open spec fn no_end_before(toks: Seq<TokenModel>, i: int) -> bool {
    forall|j: int| 0 <= j < i ==> !(#[trigger] toks[j] is End)
}

/// What one token adds to `count_marks`.
pub open spec fn mark(t: TokenModel, begins: bool) -> nat {
    match t {
        TokenModel::BeginNode(_) => if begins {
            1
        } else {
            0
        },
        TokenModel::EndNode => if begins {
            0
        } else {
            1
        },
        _ => 0,
    }
}

proof fn lemma_marks_take(toks: Seq<TokenModel>, i: int, b: bool)
    requires
        1 <= i <= toks.len(),
        !(toks[0] is End),
    ensures
        count_marks(toks.take(i), b) == mark(toks[0], b) + count_marks(toks.drop_first().take(i - 1), b),
{
    assert(toks.take(i)[0] == toks[0]);
    assert(toks.take(i).drop_first() =~= toks.drop_first().take(i - 1));
}

proof fn lemma_closed_after_root(s: BuildModel, toks: Seq<TokenModel>)
    requires
        run(s, toks) is Closed,
        s.stack.len() == 0,
        s.nodes.len() > 0,
    ensures
        toks.len() > 0 && toks[0] is End,
{
    assert(toks.len() > 0);
    match step(s, toks[0]) {
        StepModel::Open(s2) => {
            lemma_run_walk(s2, toks.drop_first());
        },
        _ => {},
    }
}

proof fn lemma_run_prefixes(s: BuildModel, toks: Seq<TokenModel>)
    requires
        run(s, toks) is Closed,
        build_wf(s),
    ensures
        forall|i: int|
            1 <= i < toks.len() && !(toks[i] is End) && #[trigger] no_end_before(toks, i)
                ==> s.stack.len() + count_marks(toks.take(i), true) > count_marks(toks.take(i), false),
    decreases toks.len(),
{
    assert(toks.len() > 0);
    let t = toks[0];
    if let StepModel::Open(s2) = step(s, t) {
        let rest = toks.drop_first();
        lemma_step_wf(s, t);
        lemma_run_prefixes(s2, rest);
        lemma_run_walk(s2, rest);
        assert forall|i: int|
            1 <= i < toks.len() && !(toks[i] is End) && #[trigger] no_end_before(toks, i)
                implies s.stack.len() + count_marks(toks.take(i), true) > count_marks(
                toks.take(i),
                false,
            ) by {
            assert(!(toks[0] is End));
            lemma_marks_take(toks, i, true);
            lemma_marks_take(toks, i, false);
            if i == 1 {
                assert(toks.drop_first().take(0) =~= Seq::<TokenModel>::empty());
                if t is EndNode && s2.stack.len() == 0 {
                    lemma_closed_after_root(s2, rest);
                    assert(rest[0] == toks[1]);
                }
            } else {
                assert(rest[i - 1] == toks[i]);
                assert forall|j: int| 0 <= j < i - 1 implies !(#[trigger] rest[j] is End) by {
                    assert(rest[j] == toks[j + 1]);
                }
                assert(no_end_before(rest, i - 1));
            }
        }
    }
}

/// Of a token stream that builds, every prefix that holds at least one token and ends before
/// the end token has more node begins than node ends: the root stays open until the end.
pub proof fn lemma_build_root_open(toks: Seq<TokenModel>, i: int)
    requires
        build_model(toks) is Ok,
        1 <= i < toks.len(),
        !(toks[i] is End),
        no_end_before(toks, i),
    ensures
        count_marks(toks.take(i), true) > count_marks(toks.take(i), false),
{
    lemma_run_prefixes(empty_build(), toks);
    assert(empty_build().stack.len() == 0);
}

} // verus!
