//! The knowledge graph's vocabulary: node kinds, content types, entity types,
//! edge kinds, and the node and edge records that extractors produce.
//!
//! Each kind has a stable text name (as stored in the database); the laws
//! below state that the names round-trip and are pairwise distinct.
pub mod context;
pub mod traverse;

use vstd::prelude::*;
use crate::text::{
    chars_of, concat, decimal, decimal_of, has_prefix, slice_chars, starts_with, str_eq, string_of,
};

verus! {

broadcast use vstd::string::group_string_axioms;

// ───────────────────────── node kinds ─────────────────────────

#[derive(Debug, Clone, Copy, PartialEq, Eq, Structural)]
pub enum NodeKind {
    Document,
    Section,
    Chunk,
    Entity,
}

/// The stored name of a node kind.
pub open spec fn node_kind_name(k: NodeKind) -> Seq<char> {
    match k {
        NodeKind::Document => "document"@,
        NodeKind::Section => "section"@,
        NodeKind::Chunk => "chunk"@,
        NodeKind::Entity => "entity"@,
    }
}

/// The node kind with a given stored name, if any.
pub open spec fn node_kind_named(s: Seq<char>) -> Option<NodeKind> {
    if s == "document"@ {
        Some(NodeKind::Document)
    } else if s == "section"@ {
        Some(NodeKind::Section)
    } else if s == "chunk"@ {
        Some(NodeKind::Chunk)
    } else if s == "entity"@ {
        Some(NodeKind::Entity)
    } else {
        None
    }
}

impl NodeKind {
    pub fn as_str(&self) -> (r: &'static str)
        ensures
            r@ == node_kind_name(*self),
    {
        match self {
            NodeKind::Document => "document",
            NodeKind::Section => "section",
            NodeKind::Chunk => "chunk",
            NodeKind::Entity => "entity",
        }
    }

    pub fn from_str(s: &str) -> (r: Option<Self>)
        ensures
            r == node_kind_named(s@),
    {
        if str_eq(s, "document") {
            Some(NodeKind::Document)
        } else if str_eq(s, "section") {
            Some(NodeKind::Section)
        } else if str_eq(s, "chunk") {
            Some(NodeKind::Chunk)
        } else if str_eq(s, "entity") {
            Some(NodeKind::Entity)
        } else {
            None
        }
    }
}

/// Reading back the name of a node kind gives that kind, so distinct kinds
/// have distinct names.
pub proof fn node_kind_names_round_trip(k: NodeKind)
    ensures
        node_kind_named(node_kind_name(k)) == Some(k),
{
    reveal_strlit("document");
    reveal_strlit("section");
    reveal_strlit("chunk");
    reveal_strlit("entity");
    assert("document"@.len() == 8);
    assert("section"@.len() == 7);
    assert("chunk"@.len() == 5);
    assert("entity"@.len() == 6);
}

// ───────────────────────── content types ─────────────────────────

#[derive(Debug, Clone, PartialEq, Eq)]
pub enum ContentType {
    Markdown,
    PlainText,
    Code { language: String },
    Json,
    Yaml,
    Toml,
    Pdf,
    Html,
    Csv,
}

/// The mathematical value of a content type: the language of code is its text.
pub ghost enum ContentKind {
    Markdown,
    PlainText,
    Code(Seq<char>),
    Json,
    Yaml,
    Toml,
    Pdf,
    Html,
    Csv,
}

impl View for ContentType {
    type V = ContentKind;

    open spec fn view(&self) -> ContentKind {
        match self {
            ContentType::Markdown => ContentKind::Markdown,
            ContentType::PlainText => ContentKind::PlainText,
            ContentType::Code { language } => ContentKind::Code(language@),
            ContentType::Json => ContentKind::Json,
            ContentType::Yaml => ContentKind::Yaml,
            ContentType::Toml => ContentKind::Toml,
            ContentType::Pdf => ContentKind::Pdf,
            ContentType::Html => ContentKind::Html,
            ContentType::Csv => ContentKind::Csv,
        }
    }
}

/// The stored name of a content type: `code:<language>` for code.
pub open spec fn content_kind_name(c: ContentKind) -> Seq<char> {
    match c {
        ContentKind::Markdown => "markdown"@,
        ContentKind::PlainText => "plaintext"@,
        ContentKind::Code(language) => "code:"@ + language,
        ContentKind::Json => "json"@,
        ContentKind::Yaml => "yaml"@,
        ContentKind::Toml => "toml"@,
        ContentKind::Pdf => "pdf"@,
        ContentKind::Html => "html"@,
        ContentKind::Csv => "csv"@,
    }
}

/// The content type with a given stored name, if any.
pub open spec fn content_kind_named(s: Seq<char>) -> Option<ContentKind> {
    if starts_with(s, "code:"@) {
        Some(ContentKind::Code(s.skip(5)))
    } else if s == "markdown"@ {
        Some(ContentKind::Markdown)
    } else if s == "plaintext"@ {
        Some(ContentKind::PlainText)
    } else if s == "json"@ {
        Some(ContentKind::Json)
    } else if s == "yaml"@ {
        Some(ContentKind::Yaml)
    } else if s == "toml"@ {
        Some(ContentKind::Toml)
    } else if s == "pdf"@ {
        Some(ContentKind::Pdf)
    } else if s == "html"@ {
        Some(ContentKind::Html)
    } else if s == "csv"@ {
        Some(ContentKind::Csv)
    } else {
        None
    }
}

/// The content type that a file extension stands for, if any.
pub open spec fn content_kind_of_extension(ext: Seq<char>) -> Option<ContentKind> {
    if ext == "md"@ || ext == "mdx"@ {
        Some(ContentKind::Markdown)
    } else if ext == "txt"@ || ext == "text"@ || ext == "log"@ {
        Some(ContentKind::PlainText)
    } else if ext == "rs"@ {
        Some(ContentKind::Code("rust"@))
    } else if ext == "js"@ {
        Some(ContentKind::Code("javascript"@))
    } else if ext == "ts"@ {
        Some(ContentKind::Code("typescript"@))
    } else if ext == "py"@ {
        Some(ContentKind::Code("python"@))
    } else if ext == "go"@ {
        Some(ContentKind::Code("go"@))
    } else if ext == "sol"@ {
        Some(ContentKind::Code("solidity"@))
    } else if ext == "json"@ {
        Some(ContentKind::Json)
    } else if ext == "yaml"@ || ext == "yml"@ {
        Some(ContentKind::Yaml)
    } else if ext == "toml"@ {
        Some(ContentKind::Toml)
    } else if ext == "pdf"@ {
        Some(ContentKind::Pdf)
    } else if ext == "html"@ || ext == "htm"@ {
        Some(ContentKind::Html)
    } else if ext == "csv"@ || ext == "tsv"@ {
        Some(ContentKind::Csv)
    } else {
        None
    }
}

/// The model of an optional content type.
pub open spec fn opt_content_view(c: Option<ContentType>) -> Option<ContentKind> {
    match c {
        Some(c) => Some(c@),
        None => None,
    }
}

impl ContentType {
    /// A copy of this content type.
    pub fn duplicate(&self) -> (r: Self)
        ensures
            r@ == self@,
    {
        match self {
            ContentType::Markdown => ContentType::Markdown,
            ContentType::PlainText => ContentType::PlainText,
            ContentType::Code { language } => ContentType::Code { language: language.clone() },
            ContentType::Json => ContentType::Json,
            ContentType::Yaml => ContentType::Yaml,
            ContentType::Toml => ContentType::Toml,
            ContentType::Pdf => ContentType::Pdf,
            ContentType::Html => ContentType::Html,
            ContentType::Csv => ContentType::Csv,
        }
    }
}

/// A `String` holding the given literal.
pub fn owned(s: &str) -> (r: String)
    ensures
        r@ == s@,
{
    let v = chars_of(s);
    string_of(&v)
}

impl ContentType {
    pub fn as_str(&self) -> (r: String)
        ensures
            r@ == content_kind_name(self@),
    {
        match self {
            ContentType::Markdown => owned("markdown"),
            ContentType::PlainText => owned("plaintext"),
            ContentType::Code { language } => {
                let p = chars_of("code:");
                let l = chars_of(language.as_str());
                string_of(&concat(&p, &l))
            },
            ContentType::Json => owned("json"),
            ContentType::Yaml => owned("yaml"),
            ContentType::Toml => owned("toml"),
            ContentType::Pdf => owned("pdf"),
            ContentType::Html => owned("html"),
            ContentType::Csv => owned("csv"),
        }
    }

    pub fn from_str(s: &str) -> (r: Option<Self>)
        ensures
            opt_content_view(r) == content_kind_named(s@),
    {
        let sv = chars_of(s);
        let prefix = chars_of("code:");
        if has_prefix(&sv, &prefix) {
            proof {
                reveal_strlit("code:");
            }
            let lang = slice_chars(&sv, 5, sv.len());
            return Some(ContentType::Code { language: string_of(&lang) });
        }
        if str_eq(s, "markdown") {
            Some(ContentType::Markdown)
        } else if str_eq(s, "plaintext") {
            Some(ContentType::PlainText)
        } else if str_eq(s, "json") {
            Some(ContentType::Json)
        } else if str_eq(s, "yaml") {
            Some(ContentType::Yaml)
        } else if str_eq(s, "toml") {
            Some(ContentType::Toml)
        } else if str_eq(s, "pdf") {
            Some(ContentType::Pdf)
        } else if str_eq(s, "html") {
            Some(ContentType::Html)
        } else if str_eq(s, "csv") {
            Some(ContentType::Csv)
        } else {
            None
        }
    }

    pub fn from_extension(ext: &str) -> (r: Option<Self>)
        ensures
            opt_content_view(r) == content_kind_of_extension(ext@),
    {
        if str_eq(ext, "md") || str_eq(ext, "mdx") {
            Some(ContentType::Markdown)
        } else if str_eq(ext, "txt") || str_eq(ext, "text") || str_eq(ext, "log") {
            Some(ContentType::PlainText)
        } else if str_eq(ext, "rs") {
            Some(ContentType::Code { language: owned("rust") })
        } else if str_eq(ext, "js") {
            Some(ContentType::Code { language: owned("javascript") })
        } else if str_eq(ext, "ts") {
            Some(ContentType::Code { language: owned("typescript") })
        } else if str_eq(ext, "py") {
            Some(ContentType::Code { language: owned("python") })
        } else if str_eq(ext, "go") {
            Some(ContentType::Code { language: owned("go") })
        } else if str_eq(ext, "sol") {
            Some(ContentType::Code { language: owned("solidity") })
        } else if str_eq(ext, "json") {
            Some(ContentType::Json)
        } else if str_eq(ext, "yaml") || str_eq(ext, "yml") {
            Some(ContentType::Yaml)
        } else if str_eq(ext, "toml") {
            Some(ContentType::Toml)
        } else if str_eq(ext, "pdf") {
            Some(ContentType::Pdf)
        } else if str_eq(ext, "html") || str_eq(ext, "htm") {
            Some(ContentType::Html)
        } else if str_eq(ext, "csv") || str_eq(ext, "tsv") {
            Some(ContentType::Csv)
        } else {
            None
        }
    }
}

/// Reading back the stored name of any content type gives that content type,
/// the language of code included.
pub proof fn content_type_names_round_trip(c: ContentKind)
    ensures
        content_kind_named(content_kind_name(c)) == Some(c),
{
    reveal_strlit("code:");
    reveal_strlit("markdown");
    reveal_strlit("plaintext");
    reveal_strlit("json");
    reveal_strlit("yaml");
    reveal_strlit("toml");
    reveal_strlit("pdf");
    reveal_strlit("html");
    reveal_strlit("csv");
    assert("code:"@.len() == 5);
    assert("markdown"@.len() == 8);
    assert("plaintext"@.len() == 9);
    assert("json"@.len() == 4);
    assert("yaml"@.len() == 4);
    assert("toml"@.len() == 4);
    assert("json"@[0] != "yaml"@[0] && "json"@[0] != "toml"@[0] && "yaml"@[0] != "toml"@[0]);
    assert("pdf"@.len() == 3 && "html"@.len() == 4 && "csv"@.len() == 3);
    assert("html"@[0] != "json"@[0] && "html"@[0] != "yaml"@[0] && "html"@[0] != "toml"@[0]);
    assert("pdf"@[0] != "csv"@[0]);
    assert("markdown"@.subrange(0, 5) != "code:"@) by {
        assert("markdown"@.subrange(0, 5)[0] != "code:"@[0]);
    }
    assert("plaintext"@.subrange(0, 5) != "code:"@) by {
        assert("plaintext"@.subrange(0, 5)[0] != "code:"@[0]);
    }
    if let ContentKind::Code(l) = c {
        assert(("code:"@ + l).skip(5) =~= l);
        assert(("code:"@ + l).subrange(0, 5) =~= "code:"@);
    }
}

/// Every content type that an extension selects is named as that extension's
/// type, and reading back its name gives it again.
pub proof fn extension_types_round_trip(ext: Seq<char>)
    ensures
        content_kind_of_extension(ext) matches Some(c) ==> content_kind_named(
            content_kind_name(c),
        ) == Some(c),
{
    if let Some(c) = content_kind_of_extension(ext) {
        content_type_names_round_trip(c);
    }
}

// ───────────────────────── entity types ─────────────────────────

#[derive(Debug, Clone, Copy, PartialEq, Eq, Structural)]
pub enum EntityType {
    Person,
    Organization,
    Location,
    Url,
    FilePath,
    Email,
    Date,
    Version,
    Identifier,
}

/// The stored name of an entity type.
pub open spec fn entity_type_name(t: EntityType) -> Seq<char> {
    match t {
        EntityType::Person => "person"@,
        EntityType::Organization => "organization"@,
        EntityType::Location => "location"@,
        EntityType::Url => "url"@,
        EntityType::FilePath => "filepath"@,
        EntityType::Email => "email"@,
        EntityType::Date => "date"@,
        EntityType::Version => "version"@,
        EntityType::Identifier => "identifier"@,
    }
}

impl EntityType {
    pub fn as_str(&self) -> (r: &'static str)
        ensures
            r@ == entity_type_name(*self),
    {
        match self {
            EntityType::Person => "person",
            EntityType::Organization => "organization",
            EntityType::Location => "location",
            EntityType::Url => "url",
            EntityType::FilePath => "filepath",
            EntityType::Email => "email",
            EntityType::Date => "date",
            EntityType::Version => "version",
            EntityType::Identifier => "identifier",
        }
    }
}

/// Distinct entity types have distinct stored names.
pub proof fn entity_type_names_distinct(a: EntityType, b: EntityType)
    ensures
        entity_type_name(a) == entity_type_name(b) ==> a == b,
{
    reveal_strlit("person");
    reveal_strlit("organization");
    reveal_strlit("location");
    reveal_strlit("url");
    reveal_strlit("filepath");
    reveal_strlit("email");
    reveal_strlit("date");
    reveal_strlit("version");
    reveal_strlit("identifier");
    if entity_type_name(a) == entity_type_name(b) {
        assert(entity_type_name(a).len() == entity_type_name(b).len());
        if a != b {
            assert(entity_type_name(a)[0] != entity_type_name(b)[0] || entity_type_name(a)[1]
                != entity_type_name(b)[1]);
        }
    }
}

// ───────────────────────── edge kinds ─────────────────────────

#[derive(Debug, Clone, Copy, PartialEq, Eq, Structural)]
pub enum EdgeKind {
    Contains,
    References,
    Mentions,
    CoOccurs,
    Follows,
}

/// The stored name of an edge kind.
pub open spec fn edge_kind_name(k: EdgeKind) -> Seq<char> {
    match k {
        EdgeKind::Contains => "contains"@,
        EdgeKind::References => "references"@,
        EdgeKind::Mentions => "mentions"@,
        EdgeKind::CoOccurs => "co_occurs"@,
        EdgeKind::Follows => "follows"@,
    }
}

/// The edge kind with a given stored name, if any.
pub open spec fn edge_kind_named(s: Seq<char>) -> Option<EdgeKind> {
    if s == "contains"@ {
        Some(EdgeKind::Contains)
    } else if s == "references"@ {
        Some(EdgeKind::References)
    } else if s == "mentions"@ {
        Some(EdgeKind::Mentions)
    } else if s == "co_occurs"@ {
        Some(EdgeKind::CoOccurs)
    } else if s == "follows"@ {
        Some(EdgeKind::Follows)
    } else {
        None
    }
}

impl EdgeKind {
    pub fn as_str(&self) -> (r: &'static str)
        ensures
            r@ == edge_kind_name(*self),
    {
        match self {
            EdgeKind::Contains => "contains",
            EdgeKind::References => "references",
            EdgeKind::Mentions => "mentions",
            EdgeKind::CoOccurs => "co_occurs",
            EdgeKind::Follows => "follows",
        }
    }

    pub fn from_str(s: &str) -> (r: Option<Self>)
        ensures
            r == edge_kind_named(s@),
    {
        if str_eq(s, "contains") {
            Some(EdgeKind::Contains)
        } else if str_eq(s, "references") {
            Some(EdgeKind::References)
        } else if str_eq(s, "mentions") {
            Some(EdgeKind::Mentions)
        } else if str_eq(s, "co_occurs") {
            Some(EdgeKind::CoOccurs)
        } else if str_eq(s, "follows") {
            Some(EdgeKind::Follows)
        } else {
            None
        }
    }
}

/// Reading back the name of an edge kind gives that kind.
pub proof fn edge_kind_names_round_trip(k: EdgeKind)
    ensures
        edge_kind_named(edge_kind_name(k)) == Some(k),
{
    reveal_strlit("contains");
    reveal_strlit("references");
    reveal_strlit("mentions");
    reveal_strlit("co_occurs");
    reveal_strlit("follows");
    assert("contains"@.len() == 8);
    assert("references"@.len() == 10);
    assert("mentions"@.len() == 8);
    assert("co_occurs"@.len() == 9);
    assert("follows"@.len() == 7);
    assert("contains"@[0] != "mentions"@[0]);
}

// ───────────────────────── nodes and edges ─────────────────────────

/// The properties a node may carry; which ones are set depends on its kind.
/// `path` and `modified` hold the path text and the RFC 3339 time text.
#[derive(Debug, Clone)]
pub struct NodeProperties {
    pub path: Option<String>,
    pub content_type: Option<ContentType>,
    pub title: Option<String>,
    pub modified: Option<String>,
    pub size: Option<u64>,
    pub content_hash: Option<String>,
    pub depth: Option<u32>,
    pub start_line: Option<u32>,
    pub end_line: Option<u32>,
    pub section_kind: Option<String>,
    pub text: Option<String>,
    pub parent_section_id: Option<u64>,
    pub entity_type: Option<EntityType>,
}

impl NodeProperties {
    /// Properties with nothing set.
    pub open spec fn is_empty(&self) -> bool {
        &&& self.path is None
        &&& self.content_type is None
        &&& self.title is None
        &&& self.modified is None
        &&& self.size is None
        &&& self.content_hash is None
        &&& self.depth is None
        &&& self.start_line is None
        &&& self.end_line is None
        &&& self.section_kind is None
        &&& self.text is None
        &&& self.parent_section_id is None
        &&& self.entity_type is None
    }

    pub fn empty() -> (r: Self)
        ensures
            r.is_empty(),
    {
        NodeProperties {
            path: None,
            content_type: None,
            title: None,
            modified: None,
            size: None,
            content_hash: None,
            depth: None,
            start_line: None,
            end_line: None,
            section_kind: None,
            text: None,
            parent_section_id: None,
            entity_type: None,
        }
    }
}

#[derive(Debug, Clone)]
pub struct Node {
    pub id: u64,
    pub kind: NodeKind,
    pub name: String,
    pub properties: NodeProperties,
}

/// Extra facts an edge may carry.
#[derive(Debug, Clone)]
pub struct EdgeProperties {
    pub ref_type: Option<String>,
    pub count: Option<u32>,
    pub order: Option<u32>,
}

impl EdgeProperties {
    pub fn empty() -> (r: Self)
        ensures
            r.ref_type is None,
            r.count is None,
            r.order is None,
    {
        EdgeProperties { ref_type: None, count: None, order: None }
    }
}

/// A directed edge. Weights are whole numbers: extractors give every edge
/// weight 1 and co-occurrence adds 1 per further sighting.
#[derive(Debug, Clone)]
pub struct Edge {
    pub from: u64,
    pub to: u64,
    pub kind: EdgeKind,
    pub weight: u32,
    pub properties: EdgeProperties,
}

/// An edge of the given kind between two nodes, weight 1, no extra facts.
pub open spec fn is_plain_edge(e: Edge, from: u64, to: u64, kind: EdgeKind) -> bool {
    &&& e.from == from
    &&& e.to == to
    &&& e.kind == kind
    &&& e.weight == 1
    &&& e.properties.ref_type is None
    &&& e.properties.count is None
    &&& e.properties.order is None
}

/// A plain edge of weight 1.
pub fn plain_edge(from: u64, to: u64, kind: EdgeKind) -> (r: Edge)
    ensures
        is_plain_edge(r, from, to, kind),
{
    Edge { from, to, kind, weight: 1, properties: EdgeProperties::empty() }
}


// ───────────────────────── views of nodes and edges ─────────────────────────

/// The text of an optional string.
pub open spec fn opt_text(o: Option<String>) -> Option<Seq<char>> {
    match o {
        Some(s) => Some(s@),
        None => None,
    }
}

/// The kind of an optional content type.
pub open spec fn opt_kind(o: Option<ContentType>) -> Option<ContentKind> {
    match o {
        Some(c) => Some(c@),
        None => None,
    }
}

/// The mathematical value of a node's properties.
pub ghost struct PropsModel {
    pub path: Option<Seq<char>>,
    pub content_type: Option<ContentKind>,
    pub title: Option<Seq<char>>,
    pub modified: Option<Seq<char>>,
    pub size: Option<u64>,
    pub content_hash: Option<Seq<char>>,
    pub depth: Option<u32>,
    pub start_line: Option<u32>,
    pub end_line: Option<u32>,
    pub section_kind: Option<Seq<char>>,
    pub text: Option<Seq<char>>,
    pub parent_section_id: Option<u64>,
    pub entity_type: Option<EntityType>,
}

impl View for NodeProperties {
    type V = PropsModel;

    open spec fn view(&self) -> PropsModel {
        PropsModel {
            path: opt_text(self.path),
            content_type: opt_kind(self.content_type),
            title: opt_text(self.title),
            modified: opt_text(self.modified),
            size: self.size,
            content_hash: opt_text(self.content_hash),
            depth: self.depth,
            start_line: self.start_line,
            end_line: self.end_line,
            section_kind: opt_text(self.section_kind),
            text: opt_text(self.text),
            parent_section_id: self.parent_section_id,
            entity_type: self.entity_type,
        }
    }
}

/// Properties with nothing set.
pub open spec fn no_props() -> PropsModel {
    PropsModel {
        path: None,
        content_type: None,
        title: None,
        modified: None,
        size: None,
        content_hash: None,
        depth: None,
        start_line: None,
        end_line: None,
        section_kind: None,
        text: None,
        parent_section_id: None,
        entity_type: None,
    }
}

/// The mathematical value of a node.
pub ghost struct NodeModel {
    pub id: u64,
    pub kind: NodeKind,
    pub name: Seq<char>,
    pub props: PropsModel,
}

impl View for Node {
    type V = NodeModel;

    open spec fn view(&self) -> NodeModel {
        NodeModel { id: self.id, kind: self.kind, name: self.name@, props: self.properties@ }
    }
}

/// The mathematical value of an edge.
pub ghost struct EdgeModel {
    pub from: u64,
    pub to: u64,
    pub kind: EdgeKind,
    pub weight: u32,
    pub ref_type: Option<Seq<char>>,
    pub count: Option<u32>,
    pub order: Option<u32>,
}

impl View for Edge {
    type V = EdgeModel;

    open spec fn view(&self) -> EdgeModel {
        EdgeModel {
            from: self.from,
            to: self.to,
            kind: self.kind,
            weight: self.weight,
            ref_type: opt_text(self.properties.ref_type),
            count: self.properties.count,
            order: self.properties.order,
        }
    }
}

/// An edge of weight 1 with no extra facts.
pub open spec fn plain(from: u64, to: u64, kind: EdgeKind) -> EdgeModel {
    EdgeModel { from, to, kind, weight: 1, ref_type: None, count: None, order: None }
}

/// The views of a list of nodes.
pub open spec fn node_views(v: Seq<Node>) -> Seq<NodeModel> {
    v.map_values(|n: Node| n@)
}

/// The views of a list of edges.
pub open spec fn edge_views(v: Seq<Edge>) -> Seq<EdgeModel> {
    v.map_values(|e: Edge| e@)
}

/// A document node: named after the file, with its path, content type,
/// title and full text.
pub open spec fn document_node(
    id: u64,
    name: Seq<char>,
    path: Seq<char>,
    ct: ContentKind,
    title: Option<Seq<char>>,
    text: Seq<char>,
) -> NodeModel {
    NodeModel {
        id,
        kind: NodeKind::Document,
        name,
        props: PropsModel {
            path: Some(path),
            content_type: Some(ct),
            title,
            text: Some(text),
            ..no_props()
        },
    }
}

/// A chunk node holding `text` under `parent`.
pub open spec fn chunk_node(id: u64, name: Seq<char>, text: Seq<char>, parent: u64) -> NodeModel {
    NodeModel {
        id,
        kind: NodeKind::Chunk,
        name,
        props: PropsModel { text: Some(text), parent_section_id: Some(parent), ..no_props() },
    }
}

/// The name of a prose chunk with a given id: `chunk_<id>`.
pub open spec fn chunk_name(id: u64) -> Seq<char> {
    "chunk_"@ + decimal(id as nat)
}

/// The name of a code chunk with a given id: `code_chunk_<id>`.
pub open spec fn code_chunk_name(id: u64) -> Seq<char> {
    "code_chunk_"@ + decimal(id as nat)
}

/// Builds a document node.
pub fn make_document_node(
    id: u64,
    name: String,
    path: &str,
    ct: ContentType,
    title: Option<String>,
    text: &str,
) -> (r: Node)
    ensures
        r@ == document_node(id, name@, path@, ct@, opt_text(title), text@),
{
    let mut props = NodeProperties::empty();
    props.path = Some(path.to_string());
    props.content_type = Some(ct);
    props.title = title;
    props.text = Some(text.to_string());
    Node { id, kind: NodeKind::Document, name, properties: props }
}

/// Builds a chunk node.
pub fn make_chunk_node(id: u64, name: String, text: String, parent: u64) -> (r: Node)
    ensures
        r@ == chunk_node(id, name@, text@, parent),
{
    let mut props = NodeProperties::empty();
    props.text = Some(text);
    props.parent_section_id = Some(parent);
    Node { id, kind: NodeKind::Chunk, name, properties: props }
}

/// `prefix` followed by the decimal digits of `id`.
pub fn numbered_name(prefix: &str, id: u64) -> (r: String)
    ensures
        r@ == prefix@ + decimal(id as nat),
{
    let v = concat(&chars_of(prefix), &decimal_of(id));
    string_of(&v)
}

} // verus!
