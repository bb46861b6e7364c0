//! JSON, YAML and TOML files: each top-level key becomes a section with one
//! chunk holding its value, re-serialised.
use vstd::prelude::*;
use crate::graph::{
    chunk_name, chunk_node, document_node, edge_views, make_chunk_node, make_document_node,
    no_props, node_views, numbered_name, plain, plain_edge, ContentKind, ContentType, Edge,
    EdgeKind, EdgeModel, Node, NodeKind, NodeModel, NodeProperties, PropsModel,
};
use crate::ingest::{file_name_of, path_file_name};
use crate::text::{chars_of, trim, trim_chars};

verus! {

broadcast use vstd::string::group_string_axioms;

/// The texts of a list of pairs of strings.
pub open spec fn pair_views(v: Seq<(String, String)>) -> Seq<(Seq<char>, Seq<char>)> {
    v.map_values(|p: (String, String)| (p.0@, p.1@))
}

/// The top-level entries of a JSON text that parses to an object, in the
/// order `serde_json`'s map keeps them, each value pretty-printed; empty for
/// any other text.
pub uninterp spec fn json_entries(content: Seq<char>) -> Seq<(Seq<char>, Seq<char>)>;

/// The top-level entries of a YAML text that parses to a mapping, in
/// document order: the key's text where the key is a string (else `None`),
/// and the value serialised; empty for any other text.
pub uninterp spec fn yaml_entries(content: Seq<char>) -> Seq<(Option<Seq<char>>, Seq<char>)>;

/// The top-level entries of a TOML text that parses to a table, in the order
/// `toml`'s map keeps them, each value pretty-printed; empty for any other
/// text.
pub uninterp spec fn toml_entries(content: Seq<char>) -> Seq<(Seq<char>, Seq<char>)>;

/// Parses `content` with `serde_json::from_str`; for an object, returns its
/// entries with each value printed by `serde_json::to_string_pretty` (empty
/// text where that fails). Trusted: the result is the named `json_entries`.
#[verifier::external_body]
fn parse_json_entries(content: &str) -> (r: Vec<(String, String)>)
    ensures
        pair_views(r@) == json_entries(content@),
{
    match serde_json::from_str::<serde_json::Value>(content) {
        Ok(serde_json::Value::Object(map)) => map.into_iter().map(
            |(k, v)| (k, serde_json::to_string_pretty(&v).unwrap_or_default()),
        ).collect(),
        _ => Vec::new(),
    }
}

/// The texts of a list of YAML entries.
pub open spec fn yaml_views(v: Seq<(Option<String>, String)>) -> Seq<(Option<Seq<char>>, Seq<char>)> {
    v.map_values(
        |p: (Option<String>, String)|
            (
                match p.0 {
                    Some(k) => Some(k@),
                    None => None,
                },
                p.1@,
            ),
    )
}

/// Parses `content` with `serde_yaml::from_str`; for a mapping, returns its
/// entries with each string key's text (`None` for other keys) and each
/// value printed by `serde_yaml::to_string` (empty text where that fails).
/// Trusted: the result is the named `yaml_entries`.
#[verifier::external_body]
fn parse_yaml_entries(content: &str) -> (r: Vec<(Option<String>, String)>)
    ensures
        yaml_views(r@) == yaml_entries(content@),
{
    match serde_yaml::from_str::<serde_yaml::Value>(content) {
        Ok(serde_yaml::Value::Mapping(map)) => map.into_iter().map(|(k, v)| match k {
            serde_yaml::Value::String(s) => (Some(s), serde_yaml::to_string(&v).unwrap_or_default()),
            _ => (None, serde_yaml::to_string(&v).unwrap_or_default()),
        }).collect(),
        _ => Vec::new(),
    }
}

/// Parses `content` with `toml::from_str`; for a table, returns its entries
/// with each value printed by `toml::to_string_pretty` (empty text where that
/// fails). Trusted: the result is the named `toml_entries`.
#[verifier::external_body]
fn parse_toml_entries(content: &str) -> (r: Vec<(String, String)>)
    ensures
        pair_views(r@) == toml_entries(content@),
{
    match toml::from_str::<toml::Value>(content) {
        Ok(toml::Value::Table(map)) => map.into_iter().map(
            |(k, v)| (k, toml::to_string_pretty(&v).unwrap_or_default()),
        ).collect(),
        _ => Vec::new(),
    }
}

/// The YAML entries whose key is a string, in order.
pub open spec fn string_keyed(v: Seq<(Option<Seq<char>>, Seq<char>)>) -> Seq<(Seq<char>, Seq<char>)>
    decreases v.len(),
{
    if v.len() == 0 {
        Seq::empty()
    } else {
        let prev = string_keyed(v.drop_last());
        match v.last().0 {
            Some(k) => prev.push((k, v.last().1)),
            None => prev,
        }
    }
}

/// The top-level (key, value text) entries of a structured text.
pub open spec fn top_level_keys(content: Seq<char>, ct: ContentKind) -> Seq<(Seq<char>, Seq<char>)> {
    match ct {
        ContentKind::Json => json_entries(content),
        ContentKind::Yaml => string_keyed(yaml_entries(content)),
        ContentKind::Toml => toml_entries(content),
        _ => Seq::empty(),
    }
}

fn keep_string_keys(v: Vec<(Option<String>, String)>) -> (r: Vec<(String, String)>)
    ensures
        pair_views(r@) == string_keyed(yaml_views(v@)),
{
    let mut out: Vec<(String, String)> = Vec::new();
    let mut i: usize = 0;
    while i < v.len()
        invariant
            i <= v.len(),
            pair_views(out@) == string_keyed(yaml_views(v@).take(i as int)),
        decreases v.len() - i,
    {
        proof {
            assert(yaml_views(v@).take(i + 1).drop_last() =~= yaml_views(v@).take(i as int));
        }
        let ghost before = pair_views(out@);
        match &v[i].0 {
            Some(k) => {
                out.push((k.clone(), v[i].1.clone()));
                proof {
                    assert(pair_views(out@) =~= before.push((k@, v@[i as int].1@)));
                }
            },
            None => {},
        }
        i += 1;
    }
    proof {
        assert(yaml_views(v@).take(v.len() as int) =~= yaml_views(v@));
    }
    out
}

/// The top-level keys of a structured text and the text of each value.
pub fn extract_top_level_keys(content: &str, content_type: &ContentType) -> (r: Vec<(String, String)>)
    ensures
        pair_views(r@) == top_level_keys(content@, content_type@),
{
    match content_type {
        ContentType::Json => parse_json_entries(content),
        ContentType::Yaml => keep_string_keys(parse_yaml_entries(content)),
        ContentType::Toml => parse_toml_entries(content),
        _ => Vec::new(),
    }
}

// ───────────────────────── nodes and edges ─────────────────────────

/// The section node for a key.
pub open spec fn key_node(id: u64, key: Seq<char>) -> NodeModel {
    NodeModel {
        id,
        kind: NodeKind::Section,
        name: key,
        props: PropsModel { section_kind: Some("key"@), title: Some(key), ..no_props() },
    }
}

/// The key and value nodes of the first `k` entries: key `j` (from 0) gets
/// id `doc_id + 1 + 2j`, its value chunk the id after it.
pub open spec fn key_nodes(keys: Seq<(Seq<char>, Seq<char>)>, doc_id: u64, k: int) -> Seq<NodeModel>
    decreases k,
{
    if k <= 0 {
        Seq::empty()
    } else {
        let sid = (doc_id + 2 * k - 1) as u64;
        let cid = (doc_id + 2 * k) as u64;
        key_nodes(keys, doc_id, k - 1) + seq![
            key_node(sid, keys[k - 1].0),
            chunk_node(cid, chunk_name(cid), keys[k - 1].1, sid),
        ]
    }
}

/// The edges of the first `k` entries: the document contains each key, each
/// key contains its value.
pub open spec fn key_edges(doc_id: u64, k: int) -> Seq<EdgeModel>
    decreases k,
{
    if k <= 0 {
        Seq::empty()
    } else {
        let sid = (doc_id + 2 * k - 1) as u64;
        let cid = (doc_id + 2 * k) as u64;
        key_edges(doc_id, k - 1) + seq![
            plain(doc_id, sid, EdgeKind::Contains),
            plain(sid, cid, EdgeKind::Contains),
        ]
    }
}

/// A structured file with no keys but some non-blank text becomes one chunk.
pub open spec fn keyed_whole_chunk(keys: Seq<(Seq<char>, Seq<char>)>, content: Seq<char>) -> bool {
    keys.len() == 0 && trim(content).len() > 0
}

/// The number of node ids a structured file with the given keys takes.
pub open spec fn keyed_ids_used(keys: Seq<(Seq<char>, Seq<char>)>, content: Seq<char>) -> int {
    if keyed_whole_chunk(keys, content) {
        2
    } else {
        1 + 2 * (keys.len() as int)
    }
}

/// The nodes of a structured file with the given top-level entries: the
/// document, then each key and its value (or one chunk with the whole text
/// where there are none).
pub open spec fn keyed_nodes(
    name: Seq<char>,
    path: Seq<char>,
    content: Seq<char>,
    ct: ContentKind,
    keys: Seq<(Seq<char>, Seq<char>)>,
    doc_id: u64,
) -> Seq<NodeModel> {
    let doc = document_node(doc_id, name, path, ct, Some(name), content);
    if keyed_whole_chunk(keys, content) {
        let cid = (doc_id + 1) as u64;
        seq![doc, chunk_node(cid, chunk_name(cid), content, doc_id)]
    } else {
        seq![doc] + key_nodes(keys, doc_id, keys.len() as int)
    }
}

/// The edges of a structured file with the given top-level entries.
pub open spec fn keyed_edges(keys: Seq<(Seq<char>, Seq<char>)>, content: Seq<char>, doc_id: u64) -> Seq<EdgeModel> {
    if keyed_whole_chunk(keys, content) {
        seq![plain(doc_id, (doc_id + 1) as u64, EdgeKind::Contains)]
    } else {
        key_edges(doc_id, keys.len() as int)
    }
}

/// The number of node ids a structured file takes.
pub open spec fn structured_ids_used(content: Seq<char>, ct: ContentKind) -> int {
    keyed_ids_used(top_level_keys(content, ct), content)
}

/// The nodes of a structured file: the document, then each key and its value.
pub open spec fn structured_nodes(
    name: Seq<char>,
    path: Seq<char>,
    content: Seq<char>,
    ct: ContentKind,
    doc_id: u64,
) -> Seq<NodeModel> {
    keyed_nodes(name, path, content, ct, top_level_keys(content, ct), doc_id)
}

/// The edges of a structured file.
pub open spec fn structured_edges(content: Seq<char>, ct: ContentKind, doc_id: u64) -> Seq<EdgeModel> {
    keyed_edges(top_level_keys(content, ct), content, doc_id)
}

fn make_key_node(id: u64, key: &String) -> (r: Node)
    ensures
        r@ == key_node(id, key@),
{
    let mut props = NodeProperties::empty();
    props.section_kind = Some("key".to_string());
    props.title = Some(key.clone());
    Node { id, kind: NodeKind::Section, name: key.clone(), properties: props }
}

/// Builds the graph of a JSON, YAML or TOML file from its top-level
/// entries: a document node and a section and chunk per entry (or one chunk
/// with the whole text where there are none). Ids are taken from `next_id`
/// on.
pub fn extract_keyed(
    path: &str,
    content: &str,
    content_type: &ContentType,
    keys: &Vec<(String, String)>,
    next_id: &mut u64,
) -> (r: (Vec<Node>, Vec<Edge>))
    requires
        *old(next_id) + keyed_ids_used(pair_views(keys@), content@) <= u64::MAX,
    ensures
        node_views(r.0@) == keyed_nodes(
            path_file_name(path@),
            path@,
            content@,
            content_type@,
            pair_views(keys@),
            *old(next_id),
        ),
        edge_views(r.1@) == keyed_edges(pair_views(keys@), content@, *old(next_id)),
        *final(next_id) == *old(next_id) + keyed_ids_used(pair_views(keys@), content@),
{
    let doc_id = *next_id;
    let file_name = file_name_of(path);
    let doc = make_document_node(
        doc_id,
        file_name.clone(),
        path,
        content_type.duplicate(),
        Some(file_name),
        content,
    );
    let ghost ks = pair_views(keys@);
    let mut nodes: Vec<Node> = Vec::new();
    let mut edges: Vec<Edge> = Vec::new();
    let ghost dn = doc@;
    nodes.push(doc);
    if keys.len() == 0 {
        let cs = chars_of(content);
        let t = trim_chars(&cs);
        if t.len() > 0 {
            let cid = doc_id + 1;
            nodes.push(make_chunk_node(cid, numbered_name("chunk_", cid), content.to_string(), doc_id));
            edges.push(plain_edge(doc_id, cid, EdgeKind::Contains));
            *next_id = doc_id + 2;
        } else {
            *next_id = doc_id + 1;
        }
        proof {
            assert(pair_views(keys@).len() == keys.len());
            assert(node_views(nodes@) =~= keyed_nodes(path_file_name(path@), path@, content@, content_type@, ks, doc_id));
            assert(edge_views(edges@) =~= keyed_edges(ks, content@, doc_id));
        }
        return (nodes, edges);
    }
    assert(pair_views(keys@).len() == keys.len());
    let mut i: usize = 0;
    while i < keys.len()
        invariant
            pair_views(keys@) == ks,
            keys.len() > 0,
            i <= keys.len(),
            doc_id + 1 + 2 * keys.len() <= u64::MAX,
            node_views(nodes@) == seq![dn] + key_nodes(ks, doc_id, i as int),
            edge_views(edges@) == key_edges(doc_id, i as int),
        decreases keys.len() - i,
    {
        let sid = doc_id + 1 + 2 * (i as u64);
        let cid = sid + 1;
        proof {
            assert(ks[i as int] == (keys@[i as int].0@, keys@[i as int].1@));
        }
        let ghost before = node_views(nodes@);
        let sn = make_key_node(sid, &keys[i].0);
        let cn = make_chunk_node(cid, numbered_name("chunk_", cid), keys[i].1.clone(), sid);
        nodes.push(sn);
        nodes.push(cn);
        edges.push(plain_edge(doc_id, sid, EdgeKind::Contains));
        edges.push(plain_edge(sid, cid, EdgeKind::Contains));
        proof {
            assert(node_views(nodes@) =~= before + seq![sn@, cn@]);
            assert(node_views(nodes@) =~= seq![dn] + key_nodes(ks, doc_id, i + 1));
            assert(edge_views(edges@) =~= key_edges(doc_id, i + 1));
        }
        i += 1;
    }
    *next_id = doc_id + 1 + 2 * (keys.len() as u64);
    proof {
        assert(node_views(nodes@) =~= keyed_nodes(path_file_name(path@), path@, content@, content_type@, ks, doc_id));
    }
    (nodes, edges)
}

/// Extracts a JSON, YAML or TOML file into a document node and a section and
/// chunk per top-level key (or one chunk with the whole text where there are
/// none). Ids are taken from `next_id` on.
pub fn extract(path: &str, content: &str, content_type: &ContentType, next_id: &mut u64) -> (r: (
    Vec<Node>,
    Vec<Edge>,
))
    requires
        *old(next_id) + structured_ids_used(content@, content_type@) <= u64::MAX,
    ensures
        node_views(r.0@) == structured_nodes(
            path_file_name(path@),
            path@,
            content@,
            content_type@,
            *old(next_id),
        ),
        edge_views(r.1@) == structured_edges(content@, content_type@, *old(next_id)),
        *final(next_id) == *old(next_id) + structured_ids_used(content@, content_type@),
{
    let keys = extract_top_level_keys(content, content_type);
    extract_keyed(path, content, content_type, &keys, next_id)
}


/// The nodes, edges and next free id of a structured file, or `None` where
/// the ids run out.
pub open spec fn structured_graph(path: Seq<char>, content: Seq<char>, ct: ContentKind, doc_id: u64) -> Option<
    (Seq<NodeModel>, Seq<EdgeModel>, int),
> {
    if doc_id + structured_ids_used(content, ct) <= u64::MAX {
        Some(
            (
                structured_nodes(path_file_name(path), path, content, ct, doc_id),
                structured_edges(content, ct, doc_id),
                doc_id + structured_ids_used(content, ct),
            ),
        )
    } else {
        None
    }
}

/// Extracts a structured file (see `extract`), or `None` (with `next_id`
/// unchanged) where the ids run out.
pub fn try_extract(path: &str, content: &str, content_type: &ContentType, next_id: &mut u64) -> (r:
    Option<(Vec<Node>, Vec<Edge>)>)
    ensures
        match structured_graph(path@, content@, content_type@, *old(next_id)) {
            Some((n, e, next)) => r matches Some((a, b)) && node_views(a@) == n && edge_views(b@)
                == e && *final(next_id) == next,
            None => r is None && *final(next_id) == *old(next_id),
        },
{
    let keys = extract_top_level_keys(content, content_type);
    assert(pair_views(keys@).len() == keys.len());
    let used: u128 = if keys.len() == 0 {
        if trim_chars(&chars_of(content)).len() > 0 {
            2
        } else {
            1
        }
    } else {
        1 + 2 * (keys.len() as u128)
    };
    if *next_id as u128 + used > u64::MAX as u128 {
        return None;
    }
    Some(extract(path, content, content_type, next_id))
}

} // verus!
