//! The document data model: error kind, metadata, nodes, branch
//! options, destinations, conditions, and the key-unique collections a
//! document is assembled from.

use vstd::prelude::*;

use crate::model::{
    ContentModel, DestModel, DocModel, MetaModel, NodeModel, OptionModel, meta_empty, nt_get,
    nt_has, vm_get, vm_has, vm_insert, lemma_vm_insert_at, lemma_vm_insert_absent,
};
use crate::text::{lemma_skip_one, str_eq};
use crate::value::{BdlValue, ValueModel};

verus! {

// ---------------------------------------------------------------------------
// Errors
// ---------------------------------------------------------------------------

/// The failure kinds of parsing and validation.  Each carries the
/// offending text or a short description.
#[derive(Debug, Clone, PartialEq)]
pub enum BdlError {
    /// A malformed metadata or variable line, an unparseable value
    /// literal, or a duplicate global block.
    ParseError(String),
    /// Reserved for variable-scope violations surfaced by collaborators
    /// at evaluation time; the parser itself never raises it.
    VariableError(String),
    /// A duplicate node name, on insertion or during parsing.
    NodeError(String),
    /// A bad dependency extension, a repeated declaration, or an
    /// undeclared file-transfer target.
    DependencyError(String),
}

/// The text an error carries.
pub open spec fn err_text(e: BdlError) -> Seq<char> {
    match e {
        BdlError::ParseError(s) => s@,
        BdlError::VariableError(s) => s@,
        BdlError::NodeError(s) => s@,
        BdlError::DependencyError(s) => s@,
    }
}

impl BdlError {
    /// The text carried by the error.
    pub fn message(&self) -> (r: &String)
        ensures
            r@ == err_text(*self),
    {
        match self {
            BdlError::ParseError(s) => s,
            BdlError::VariableError(s) => s,
            BdlError::NodeError(s) => s,
            BdlError::DependencyError(s) => s,
        }
    }
}

// ---------------------------------------------------------------------------
// View helpers
// ---------------------------------------------------------------------------

pub open spec fn content_views(s: Seq<BdlContentElement>) -> Seq<ContentModel> {
    s.map_values(|c: BdlContentElement| c@)
}

pub open spec fn option_views(s: Seq<BdlBranchOption>) -> Seq<OptionModel> {
    s.map_values(|o: BdlBranchOption| o@)
}

pub open spec fn node_views(s: Seq<BdlNode>) -> Seq<NodeModel> {
    s.map_values(|n: BdlNode| n@)
}

pub open spec fn pair_views(s: Seq<(String, BdlValue)>) -> Seq<(Seq<char>, ValueModel)> {
    s.map_values(|p: (String, BdlValue)| (p.0@, p.1@))
}

// ---------------------------------------------------------------------------
// Metadata
// ---------------------------------------------------------------------------

/// The recognized header fields; absent fields are `None`.
#[derive(Debug, Clone, PartialEq)]
pub struct BdlMetadata {
    pub topic: Option<String>,
    pub description: Option<String>,
    pub author: Option<String>,
    pub version: Option<String>,
    pub required: Option<Vec<String>>,
}

impl View for BdlMetadata {
    type V = MetaModel;

    open spec fn view(&self) -> MetaModel {
        MetaModel {
            topic: self.topic.deep_view(),
            description: self.description.deep_view(),
            author: self.author.deep_view(),
            version: self.version.deep_view(),
            required: self.required.deep_view(),
        }
    }
}

impl Default for BdlMetadata {
    /// The metadata of a document with no header: every field absent.
    fn default() -> (r: Self)
        ensures
            r@ == meta_empty(),
    {
        let r = BdlMetadata {
            topic: None,
            description: None,
            author: None,
            version: None,
            required: None,
        };
        assert(r@ =~= meta_empty());
        r
    }
}

// ---------------------------------------------------------------------------
// Node content, options, destinations
// ---------------------------------------------------------------------------

/// One element of a node's rendered content, in source order.
#[derive(Debug, Clone, PartialEq)]
pub enum BdlContentElement {
    /// Literal text; a run of plain lines keeps its internal line breaks.
    Text(String),
    /// A `${name}` interpolation marker.
    Variable(String),
    /// A `!{name -> r1, r2}` invocation marker binding its result into
    /// zero or more local variables.
    FunctionCall { name: String, result_vars: Vec<String> },
}

impl View for BdlContentElement {
    type V = ContentModel;

    open spec fn view(&self) -> ContentModel {
        match self {
            BdlContentElement::Text(s) => ContentModel::CText(s@),
            BdlContentElement::Variable(s) => ContentModel::CVar(s@),
            BdlContentElement::FunctionCall { name, result_vars } => ContentModel::CCall {
                name: name@,
                results: result_vars.deep_view(),
            },
        }
    }
}

/// Where an option leads.
#[derive(Debug, Clone, PartialEq)]
pub enum BdlDestination {
    /// A node of the same file.
    Node(String),
    /// A node of a declared dependency file.
    FileTransfer { file: String, node: String },
    /// The terminal exit.
    Exit,
}

impl View for BdlDestination {
    type V = DestModel;

    open spec fn view(&self) -> DestModel {
        match self {
            BdlDestination::Node(s) => DestModel::DNode(s@),
            BdlDestination::FileTransfer { file, node } => DestModel::DFile {
                file: file@,
                node: node@,
            },
            BdlDestination::Exit => DestModel::DExit,
        }
    }
}

/// The variable whose truthiness gates a conditional option; the parser
/// records the name and never evaluates it.
#[derive(Debug, Clone, PartialEq)]
pub struct BdlCondition {
    pub variable: String,
}

/// A keyword-triggered transition out of a node.
#[derive(Debug, Clone, PartialEq)]
pub struct BdlBranchOption {
    /// Any one keyword fires the option; matching is case-sensitive.
    pub keywords: Vec<String>,
    pub destination: BdlDestination,
    pub condition: Option<BdlCondition>,
}

impl View for BdlBranchOption {
    type V = OptionModel;

    open spec fn view(&self) -> OptionModel {
        OptionModel {
            keywords: self.keywords.deep_view(),
            dest: self.destination@,
            cond: match &self.condition {
                Some(c) => Some(c.variable@),
                None => None,
            },
        }
    }
}

// ---------------------------------------------------------------------------
// Nodes
// ---------------------------------------------------------------------------

/// A named addressable point of the dialog graph.
#[derive(Debug, Clone)]
pub struct BdlNode {
    /// The identifier after the node marker, trimmed.
    pub name: String,
    /// Render order is source order.
    pub content: Vec<BdlContentElement>,
    /// Evaluation order is source order.
    pub options: Vec<BdlBranchOption>,
}

impl View for BdlNode {
    type V = NodeModel;

    open spec fn view(&self) -> NodeModel {
        NodeModel {
            name: self.name@,
            content: content_views(self.content@),
            options: option_views(self.options@),
        }
    }
}

impl BdlNode {
    /// A node with the given name and no body yet.
    pub fn new(name: String) -> (r: Self)
        ensures
            r@.name == name@,
            r@.content =~= Seq::<ContentModel>::empty(),
            r@.options =~= Seq::<OptionModel>::empty(),
    {
        let r = BdlNode { name, content: Vec::new(), options: Vec::new() };
        assert(r@.content =~= Seq::<ContentModel>::empty());
        assert(r@.options =~= Seq::<OptionModel>::empty());
        r
    }

    /// Append one content element.
    pub fn add_content(&mut self, content: BdlContentElement)
        ensures
            final(self)@.name == old(self)@.name,
            final(self)@.options == old(self)@.options,
            final(self)@.content =~= old(self)@.content.push(content@),
    {
        self.content.push(content);
        assert(final(self)@.content =~= old(self)@.content.push(content@));
    }

    /// Append one branch option.
    pub fn add_option(&mut self, option: BdlBranchOption)
        ensures
            final(self)@.name == old(self)@.name,
            final(self)@.content == old(self)@.content,
            final(self)@.options =~= old(self)@.options.push(option@),
    {
        self.options.push(option);
        assert(final(self)@.options =~= old(self)@.options.push(option@));
    }
}

// ---------------------------------------------------------------------------
// Variable mappings
// ---------------------------------------------------------------------------

/// A key-unique mapping from variable names to values, keeping first
/// insertion order; a later insert of a present key replaces the value
/// in place.
#[derive(Debug, Clone)]
pub struct VarMap {
    entries: Vec<(String, BdlValue)>,
}

impl View for VarMap {
    type V = Seq<(Seq<char>, ValueModel)>;

    closed spec fn view(&self) -> Seq<(Seq<char>, ValueModel)> {
        pair_views(self.entries@)
    }
}

impl VarMap {
    pub fn new() -> (r: Self)
        ensures
            r@ =~= Seq::<(Seq<char>, ValueModel)>::empty(),
    {
        let r = VarMap { entries: Vec::new() };
        assert(r@ =~= Seq::<(Seq<char>, ValueModel)>::empty());
        r
    }

    pub fn len(&self) -> (r: usize)
        ensures
            r == self@.len(),
    {
        self.entries.len()
    }

    pub fn is_empty(&self) -> (r: bool)
        ensures
            r == (self@.len() == 0),
    {
        self.entries.len() == 0
    }

    /// Index of the entry holding `key`, if any.
    fn find_key(&self, key: &str) -> (r: Option<usize>)
        ensures
            match r {
                Some(i) => i < self@.len() && self@[i as int].0 == key@ && forall|j: int|
                    0 <= j < i ==> self@[j].0 != key@,
                None => forall|j: int| 0 <= j < self@.len() ==> self@[j].0 != key@,
            },
    {
        let n = self.entries.len();
        let mut i: usize = 0;
        while i < n
            invariant
                0 <= i <= n,
                n == self.entries@.len(),
                forall|j: int| 0 <= j < i ==> self@[j].0 != key@,
            decreases n - i,
        {
            if str_eq(self.entries[i].0.as_str(), key) {
                return Some(i);
            }
            i += 1;
        }
        None
    }

    /// The value bound to `key`, if any.
    pub fn get(&self, key: &str) -> (r: Option<&BdlValue>)
        ensures
            match r {
                Some(v) => vm_has(self@, key@) && v@ == vm_get(self@, key@),
                None => !vm_has(self@, key@),
            },
    {
        let n = self.entries.len();
        let mut i: usize = 0;
        assert(self@.skip(0) =~= self@);
        while i < n
            invariant
                0 <= i <= n,
                n == self.entries@.len(),
                vm_has(self@, key@) == vm_has(self@.skip(i as int), key@),
                vm_has(self@, key@) ==> vm_get(self@, key@) == vm_get(self@.skip(i as int), key@),
            decreases n - i,
        {
            proof {
                assert(self@.skip(i as int)[0] == self@[i as int]);
                lemma_skip_one(self@, i as int);
            }
            if str_eq(self.entries[i].0.as_str(), key) {
                return Some(&self.entries[i].1);
            }
            i += 1;
        }
        assert(self@.skip(n as int) =~= Seq::<(Seq<char>, ValueModel)>::empty());
        None
    }

    /// The entry at position `i`, in first-insertion order.
    pub fn entry_at(&self, i: usize) -> (r: &(String, BdlValue))
        requires
            i < self@.len(),
        ensures
            r.0@ == self@[i as int].0,
            r.1@ == self@[i as int].1,
    {
        &self.entries[i]
    }

    /// Bind `key` to `value`, replacing in place when `key` is present.
    pub fn insert(&mut self, key: String, value: BdlValue)
        ensures
            final(self)@ == vm_insert(old(self)@, key@, value@),
    {
        let found = self.find_key(key.as_str());
        match found {
            Some(i) => {
                self.entries.remove(i);
                self.entries.insert(i, (key, value));
                proof {
                    lemma_vm_insert_at(old(self)@, key@, value@, i as int);
                    assert(final(self)@ =~= old(self)@.update(i as int, (key@, value@)));
                }
            },
            None => {
                self.entries.push((key, value));
                proof {
                    lemma_vm_insert_absent(old(self)@, key@, value@);
                    assert(final(self)@ =~= old(self)@.push((key@, value@)));
                }
            },
        }
    }
}

// ---------------------------------------------------------------------------
// Node collections
// ---------------------------------------------------------------------------

/// The nodes of a document, keyed by their names; names are unique.
#[derive(Debug, Clone)]
pub struct NodeTable {
    nodes: Vec<BdlNode>,
}

impl View for NodeTable {
    type V = Seq<NodeModel>;

    closed spec fn view(&self) -> Seq<NodeModel> {
        node_views(self.nodes@)
    }
}

impl NodeTable {
    pub fn new() -> (r: Self)
        ensures
            r@ =~= Seq::<NodeModel>::empty(),
    {
        let r = NodeTable { nodes: Vec::new() };
        assert(r@ =~= Seq::<NodeModel>::empty());
        r
    }

    pub fn len(&self) -> (r: usize)
        ensures
            r == self@.len(),
    {
        self.nodes.len()
    }

    pub fn is_empty(&self) -> (r: bool)
        ensures
            r == (self@.len() == 0),
    {
        self.nodes.len() == 0
    }

    pub fn contains_key(&self, name: &str) -> (r: bool)
        ensures
            r == nt_has(self@, name@),
    {
        let n = self.nodes.len();
        let mut i: usize = 0;
        assert(self@.skip(0) =~= self@);
        while i < n
            invariant
                0 <= i <= n,
                n == self.nodes@.len(),
                nt_has(self@, name@) == nt_has(self@.skip(i as int), name@),
            decreases n - i,
        {
            proof {
                assert(self@.skip(i as int)[0] == self@[i as int]);
                lemma_skip_one(self@, i as int);
            }
            if str_eq(self.nodes[i].name.as_str(), name) {
                return true;
            }
            i += 1;
        }
        assert(self@.skip(n as int) =~= Seq::<NodeModel>::empty());
        false
    }

    /// The node of the given name, if any.
    pub fn get(&self, name: &str) -> (r: Option<&BdlNode>)
        ensures
            match r {
                Some(v) => nt_has(self@, name@) && v@ == nt_get(self@, name@),
                None => !nt_has(self@, name@),
            },
    {
        let n = self.nodes.len();
        let mut i: usize = 0;
        assert(self@.skip(0) =~= self@);
        while i < n
            invariant
                0 <= i <= n,
                n == self.nodes@.len(),
                nt_has(self@, name@) == nt_has(self@.skip(i as int), name@),
                nt_has(self@, name@) ==> nt_get(self@, name@) == nt_get(self@.skip(i as int), name@),
            decreases n - i,
        {
            proof {
                assert(self@.skip(i as int)[0] == self@[i as int]);
                lemma_skip_one(self@, i as int);
            }
            if str_eq(self.nodes[i].name.as_str(), name) {
                return Some(&self.nodes[i]);
            }
            i += 1;
        }
        assert(self@.skip(n as int) =~= Seq::<NodeModel>::empty());
        None
    }

    /// The node at position `i`, in insertion order.
    pub fn node_at(&self, i: usize) -> (r: &BdlNode)
        requires
            i < self@.len(),
        ensures
            r@ == self@[i as int],
    {
        &self.nodes[i]
    }

    /// Append a node; callers check for duplicates first.
    pub fn push_node(&mut self, node: BdlNode)
        ensures
            final(self)@ =~= old(self)@.push(node@),
    {
        self.nodes.push(node);
        assert(final(self)@ =~= old(self)@.push(node@));
    }
}

// ---------------------------------------------------------------------------
// Dependency sets
// ---------------------------------------------------------------------------

/// The validated dependency file names of one document, in declaration
/// order, each held once.
#[derive(Debug, Clone)]
pub struct DepSet {
    names: Vec<String>,
}

impl View for DepSet {
    type V = Seq<Seq<char>>;

    closed spec fn view(&self) -> Seq<Seq<char>> {
        self.names.deep_view()
    }
}

impl DepSet {
    pub fn new() -> (r: Self)
        ensures
            r@ =~= Seq::<Seq<char>>::empty(),
    {
        let r = DepSet { names: Vec::new() };
        assert(r@ =~= Seq::<Seq<char>>::empty());
        r
    }

    pub fn len(&self) -> (r: usize)
        ensures
            r == self@.len(),
    {
        self.names.len()
    }

    pub fn contains(&self, name: &str) -> (r: bool)
        ensures
            r == self@.contains(name@),
    {
        let n = self.names.len();
        let mut i: usize = 0;
        while i < n
            invariant
                0 <= i <= n,
                n == self.names@.len(),
                forall|j: int| 0 <= j < i ==> self@[j] != name@,
            decreases n - i,
        {
            if str_eq(self.names[i].as_str(), name) {
                assert(self@[i as int] == name@);
                return true;
            }
            i += 1;
        }
        assert(!self@.contains(name@)) by {
            if self@.contains(name@) {
                let w = choose|j: int| 0 <= j < self@.len() && self@[j] == name@;
            }
        }
        false
    }

    /// The name at position `i`, in declaration order.
    pub fn name_at(&self, i: usize) -> (r: &String)
        requires
            i < self@.len(),
        ensures
            r@ == self@[i as int],
    {
        &self.names[i]
    }

    /// Add a name; keeps the set unchanged and reports `false` when the
    /// name is already present.
    pub fn insert(&mut self, name: String) -> (r: bool)
        ensures
            r == !old(self)@.contains(name@),
            final(self)@ =~= if r {
                old(self)@.push(name@)
            } else {
                old(self)@
            },
    {
        if self.contains(name.as_str()) {
            false
        } else {
            self.names.push(name);
            assert(final(self)@ =~= old(self)@.push(name@));
            true
        }
    }
}

// ---------------------------------------------------------------------------
// Documents
// ---------------------------------------------------------------------------

/// One parsed document: metadata, the optional global scope, the local
/// scope, and the node mapping.  Constructed once by parsing and
/// treated as immutable afterwards.
#[derive(Debug, Clone)]
pub struct BdlDocument {
    pub metadata: BdlMetadata,
    /// Present only when a `$global_vars` block was declared; an absent
    /// mapping is distinct from an empty one.
    pub global_vars: Option<VarMap>,
    pub local_vars: VarMap,
    pub nodes: NodeTable,
}

impl View for BdlDocument {
    type V = DocModel;

    open spec fn view(&self) -> DocModel {
        DocModel {
            metadata: self.metadata@,
            global: match &self.global_vars {
                Some(g) => Some(g@),
                None => None,
            },
            local: self.local_vars@,
            nodes: self.nodes@,
        }
    }
}

impl BdlDocument {
    /// An empty document carrying the given metadata, or the empty
    /// metadata when none is given.
    pub fn new(metadata: Option<BdlMetadata>) -> (r: Self)
        ensures
            r@.metadata == match metadata {
                Some(m) => m@,
                None => meta_empty(),
            },
            r@.global is None,
            r@.local =~= Seq::<(Seq<char>, ValueModel)>::empty(),
            r@.nodes =~= Seq::<NodeModel>::empty(),
    {
        let meta = match metadata {
            Some(m) => m,
            None => BdlMetadata::default(),
        };
        BdlDocument {
            metadata: meta,
            global_vars: None,
            local_vars: VarMap::new(),
            nodes: NodeTable::new(),
        }
    }

    /// Add a node under its name; a present name is rejected with a
    /// `NodeError` carrying that name, and the document is left
    /// unchanged.
    pub fn add_node(&mut self, node: BdlNode) -> (r: Result<(), BdlError>)
        ensures
            match r {
                Ok(_) => !nt_has(old(self)@.nodes, node@.name) && final(self)@ == DocModel {
                    nodes: old(self)@.nodes.push(node@),
                    ..old(self)@
                },
                Err(e) => e is NodeError && err_text(e) == node@.name && nt_has(
                    old(self)@.nodes,
                    node@.name,
                ) && final(self)@ == old(self)@,
            },
    {
        if self.nodes.contains_key(node.name.as_str()) {
            return Err(BdlError::NodeError(node.name));
        }
        self.nodes.push_node(node);
        assert(final(self)@ =~= DocModel { nodes: old(self)@.nodes.push(node@), ..old(self)@ });
        Ok(())
    }
}

} // verus!
