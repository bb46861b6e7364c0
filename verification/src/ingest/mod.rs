//! Turning documents into graph nodes and edges, one extractor per content
//! type, and the decisions of ingestion around them: what is skipped, what
//! is indexed for text search and embedding, and how outcomes are counted.
pub mod code;
pub mod markdown;
pub mod plaintext;
pub mod structured;

use vstd::prelude::*;
use sha2::Digest;
use crate::graph::{
    content_kind_name, content_kind_of_extension, opt_content_view, ContentKind, ContentType, Edge,
    EdgeModel, Node, NodeKind, NodeModel, edge_views, node_views,
};
use crate::text::{byte_len, chars_of, concat, slice_chars, str_eq, string_of, to_lowercase, lowercase};

verus! {

broadcast use vstd::string::group_string_axioms;

/// The last component of a path, as `std::path::Path::file_name` reads it
/// (empty where there is none).
pub uninterp spec fn path_file_name(path: Seq<char>) -> Seq<char>;

/// Calls `std::path::Path::file_name` on `path` and returns the component as
/// text, or the empty text where the path has no file name. Trusted: the
/// result is the named `path_file_name` of the path.
#[verifier::external_body]
pub(crate) fn file_name_of(path: &str) -> (r: String)
    ensures
        r@ == path_file_name(path@),
{
    std::path::Path::new(path).file_name().unwrap_or_default().to_string_lossy().to_string()
}

/// The extension of a path, as `std::path::Path::extension` reads it, where
/// it has one.
pub uninterp spec fn path_extension(path: Seq<char>) -> Option<Seq<char>>;

/// Calls `std::path::Path::extension` on `path` and returns it as text.
/// Trusted: the result is the named `path_extension` of the path.
#[verifier::external_body]
fn extension_of(path: &str) -> (r: Option<String>)
    ensures
        match path_extension(path@) {
            Some(e) => r matches Some(x) && x@ == e,
            None => r is None,
        },
{
    std::path::Path::new(path).extension().and_then(|e| e.to_str()).map(|e| e.to_string())
}

/// The SHA-256 digest of some bytes, written as lowercase hexadecimal.
pub uninterp spec fn sha256_hex(data: Seq<u8>) -> Seq<char>;

/// Hashes `bytes` with `sha2::Sha256` and formats the digest with `{:x}`.
/// Trusted: the result is the named `sha256_hex` of the bytes; as
/// `generic_array`'s `LowerHex` shows, it is two lowercase hex digits per
/// byte of the 32-byte digest, so 64 ASCII characters.
#[verifier::external_body]
fn compute_hash(bytes: &[u8]) -> (r: String)
    ensures
        r@ == sha256_hex(bytes@),
        r@.len() == 64,
        crate::text::is_ascii_seq(r@),
{
    format!("{:x}", sha2::Sha256::digest(bytes))
}

// ───────────────────────── documents ─────────────────────────

/// A document from any source, ready to ingest.
pub struct DocumentInput {
    /// Where the document comes from: a path, a URL, an upload id.
    pub doc_id: String,
    /// A readable name (the file name or a title).
    pub name: String,
    /// The document's text.
    pub content: String,
    /// Which extractor reads it.
    pub content_type: ContentType,
    /// The SHA-256 of the text, for change detection.
    pub content_hash: String,
    /// The size in bytes.
    pub size: u64,
    /// When it was last modified (RFC 3339).
    pub modified: String,
}

impl DocumentInput {
    /// A document whose hash is computed from its text.
    pub fn new(
        doc_id: String,
        name: String,
        content: String,
        content_type: ContentType,
        size: u64,
        modified: String,
    ) -> (r: Self)
        ensures
            r.doc_id@ == doc_id@,
            r.name@ == name@,
            r.content@ == content@,
            r.content_type@ == content_type@,
            r.content_hash@ == sha256_hex(vstd::utf8::encode_utf8(content@)),
            r.size == size,
            r.modified@ == modified@,
    {
        let content_hash = compute_hash(content.as_str().as_bytes());
        DocumentInput { doc_id, name, content, content_type, content_hash, size, modified }
    }

    /// A document received as bytes (an upload): its hash and size are
    /// those of the bytes, its content the text already extracted from them.
    pub fn from_bytes(
        doc_id: String,
        name: String,
        bytes: &[u8],
        content: String,
        content_type: ContentType,
        modified: String,
    ) -> (r: Self)
        ensures
            r.doc_id@ == doc_id@,
            r.name@ == name@,
            r.content@ == content@,
            r.content_type@ == content_type@,
            r.content_hash@ == sha256_hex(bytes@),
            r.size == bytes@.len(),
            r.modified@ == modified@,
    {
        let content_hash = compute_hash(bytes);
        let size = bytes.len() as u64;
        DocumentInput { doc_id, name, content, content_type, content_hash, size, modified }
    }
}


/// The content type of a file by its extension, compared lowercased.
pub fn content_type_for(extension: &str) -> (r: Option<ContentType>)
    ensures
        opt_content_view(r) == content_kind_of_extension(lowercase(extension@)),
{
    let l = to_lowercase(extension);
    ContentType::from_extension(l.as_str())
}

// ───────────────────────── outcomes ─────────────────────────

/// What became of one document.
#[derive(Debug, Clone, Copy, PartialEq, Eq, Structural)]
pub enum DocOutcome {
    Indexed { chunks_embedded: u64 },
    Skipped,
    Failed,
}

/// The counts of an ingestion run.
#[derive(Debug, Clone, Copy, PartialEq, Eq, Structural)]
pub struct IngestResult {
    pub files_indexed: u64,
    pub files_skipped: u64,
    pub files_failed: u64,
    pub chunks_embedded: u64,
}

impl IngestResult {
    /// Nothing counted yet.
    pub fn new() -> (r: Self)
        ensures
            r == (IngestResult { files_indexed: 0, files_skipped: 0, files_failed: 0, chunks_embedded: 0 }),
    {
        IngestResult { files_indexed: 0, files_skipped: 0, files_failed: 0, chunks_embedded: 0 }
    }

    /// The counts after one more outcome.
    pub open spec fn after(self, o: DocOutcome) -> IngestResult {
        match o {
            DocOutcome::Indexed { chunks_embedded } => IngestResult {
                files_indexed: (self.files_indexed + 1) as u64,
                chunks_embedded: (self.chunks_embedded + chunks_embedded) as u64,
                ..self
            },
            DocOutcome::Skipped => IngestResult { files_skipped: (self.files_skipped + 1) as u64, ..self },
            DocOutcome::Failed => IngestResult { files_failed: (self.files_failed + 1) as u64, ..self },
        }
    }

    /// The counts do not overflow when `o` is added.
    pub open spec fn room_for(self, o: DocOutcome) -> bool {
        match o {
            DocOutcome::Indexed { chunks_embedded } => self.files_indexed < u64::MAX
                && self.chunks_embedded + chunks_embedded <= u64::MAX,
            DocOutcome::Skipped => self.files_skipped < u64::MAX,
            DocOutcome::Failed => self.files_failed < u64::MAX,
        }
    }

    /// Counts one more outcome.
    pub fn record(&mut self, o: DocOutcome)
        requires
            old(self).room_for(o),
        ensures
            *final(self) == old(self).after(o),
    {
        match o {
            DocOutcome::Indexed { chunks_embedded } => {
                self.files_indexed = self.files_indexed + 1;
                self.chunks_embedded = self.chunks_embedded + chunks_embedded;
            },
            DocOutcome::Skipped => {
                self.files_skipped = self.files_skipped + 1;
            },
            DocOutcome::Failed => {
                self.files_failed = self.files_failed + 1;
            },
        }
    }
}

/// What the ingestion of a document reports as it goes.
pub enum ProgressEvent {
    FileStart { path: String, file_num: u64 },
    FileComplete { path: String, chunks: u64, embeddings: u64 },
    FileSkipped { path: String },
    FileFailed { path: String, error: String },
    EmbeddingChunk { chunk_num: u64, total_in_file: u64 },
    EntitiesResolved { merges: u64 },
    Committing,
}

/// Whether a document is new, unchanged since it was stored, or changed.
#[derive(Debug, Clone, Copy, PartialEq, Eq, Structural)]
pub enum Freshness {
    New,
    Unchanged,
    Changed,
}

/// Compares the hash stored for a document (if any) with its current hash:
/// an unchanged document is skipped, a changed one replaces its old entries.
pub fn freshness(stored_hash: Option<&str>, content_hash: &str) -> (r: Freshness)
    ensures
        r == match stored_hash {
            None => Freshness::New,
            Some(h) => if h@ == content_hash@ {
                Freshness::Unchanged
            } else {
                Freshness::Changed
            },
        },
{
    match stored_hash {
        None => Freshness::New,
        Some(h) => if str_eq(h, content_hash) {
            Freshness::Unchanged
        } else {
            Freshness::Changed
        },
    }
}

// ───────────────────────── extraction ─────────────────────────

/// The graph of a document by its content type (JSON, YAML and TOML share
/// one extractor; the text already taken from a PDF, HTML or CSV file is
/// read as plain text); `None` where it cannot be built.
pub open spec fn document_graph(doc_id: Seq<char>, content: Seq<char>, ct: ContentKind, n: u64) -> Option<
    (Seq<NodeModel>, Seq<EdgeModel>, int),
> {
    match ct {
        ContentKind::Markdown => markdown::markdown_graph(doc_id, content, n),
        ContentKind::PlainText | ContentKind::Pdf | ContentKind::Html | ContentKind::Csv => plaintext::plaintext_graph(
            doc_id,
            content,
            n,
        ),
        ContentKind::Code(language) => code::code_graph(doc_id, content, language, n),
        _ => structured::structured_graph(doc_id, content, ct, n),
    }
}

/// Runs the extractor for a document's content type, naming it by its id.
/// `None` (with `next_id` unchanged) where it cannot be built.
pub fn extract_document(doc: &DocumentInput, next_id: &mut u64) -> (r: Option<(Vec<Node>, Vec<Edge>)>)
    ensures
        match document_graph(doc.doc_id@, doc.content@, doc.content_type@, *old(next_id)) {
            Some((n, e, next)) => r matches Some((a, b)) && node_views(a@) == n && edge_views(b@)
                == e && *final(next_id) == next,
            None => r is None && *final(next_id) == *old(next_id),
        },
{
    let path = doc.doc_id.as_str();
    let content = doc.content.as_str();
    match &doc.content_type {
        ContentType::Markdown => markdown::extract(path, content, next_id),
        ContentType::PlainText | ContentType::Pdf | ContentType::Html | ContentType::Csv => plaintext::try_extract(
            path,
            content,
            next_id,
        ),
        ContentType::Code { language } => code::try_extract(path, content, language.as_str(), next_id),
        _ => structured::try_extract(path, content, &doc.content_type, next_id),
    }
}


// ───────────────────────── what gets indexed ─────────────────────────

/// One entry for the full-text index.
pub struct IndexEntry {
    pub node_id: u64,
    pub path: String,
    pub text: String,
    pub title: String,
    pub content_type: String,
}

/// The mathematical value of an index entry.
pub ghost struct EntryModel {
    pub node_id: u64,
    pub path: Seq<char>,
    pub text: Seq<char>,
    pub title: Seq<char>,
    pub content_type: Seq<char>,
}

impl View for IndexEntry {
    type V = EntryModel;

    open spec fn view(&self) -> EntryModel {
        EntryModel {
            node_id: self.node_id,
            path: self.path@,
            text: self.text@,
            title: self.title@,
            content_type: self.content_type@,
        }
    }
}

/// The views of a list of index entries.
pub open spec fn entry_views(v: Seq<IndexEntry>) -> Seq<EntryModel> {
    v.map_values(|e: IndexEntry| e@)
}

/// The index entries of one node: its text (titled by its title, else its
/// name) when it has non-empty text, then a document's title on its own.
pub open spec fn node_entries(n: NodeModel, path: Seq<char>, ct: Seq<char>) -> Seq<EntryModel> {
    let text_entry = match n.props.text {
        Some(t) => if t.len() > 0 {
            seq![
                EntryModel {
                    node_id: n.id,
                    path,
                    text: t,
                    title: match n.props.title {
                        Some(x) => x,
                        None => n.name,
                    },
                    content_type: ct,
                },
            ]
        } else {
            Seq::empty()
        },
        None => Seq::empty(),
    };
    let title_entry = if n.kind == NodeKind::Document {
        match n.props.title {
            Some(t) => seq![EntryModel { node_id: n.id, path, text: t, title: t, content_type: ct }],
            None => Seq::empty(),
        }
    } else {
        Seq::empty()
    };
    text_entry + title_entry
}

/// The index entries of the first `k` nodes, in order.
pub open spec fn index_entries_of(nodes: Seq<NodeModel>, path: Seq<char>, ct: Seq<char>, k: int) -> Seq<EntryModel>
    decreases k,
{
    if k <= 0 {
        Seq::empty()
    } else {
        index_entries_of(nodes, path, ct, k - 1) + node_entries(nodes[k - 1], path, ct)
    }
}

/// The full-text index entries for a document's nodes.
pub fn index_entries(nodes: &Vec<Node>, path: &str, content_type: &str) -> (r: Vec<IndexEntry>)
    ensures
        entry_views(r@) == index_entries_of(node_views(nodes@), path@, content_type@, nodes.len() as int),
{
    let mut out: Vec<IndexEntry> = Vec::new();
    let mut i: usize = 0;
    while i < nodes.len()
        invariant
            i <= nodes.len(),
            entry_views(out@) == index_entries_of(node_views(nodes@), path@, content_type@, i as int),
        decreases nodes.len() - i,
    {
        let n = &nodes[i];
        proof {
            assert(node_views(nodes@)[i as int] == n@);
        }
        let ghost before = entry_views(out@);
        let ghost mid = before;
        match &n.properties.text {
            Some(t) => {
                if crate::text::has_text(t.as_str()) {
                    let title = match &n.properties.title {
                        Some(x) => x.clone(),
                        None => n.name.clone(),
                    };
                    let e = IndexEntry {
                        node_id: n.id,
                        path: path.to_string(),
                        text: t.clone(),
                        title,
                        content_type: content_type.to_string(),
                    };
                    proof {
                        assert(t@.len() > 0);
                    }
                    out.push(e);
                }
            },
            None => {},
        }
        let ghost mid = entry_views(out@);
        proof {
            let ne = node_entries(n@, path@, content_type@);
            let tn = match n@.props.text {
                Some(t) => if t.len() > 0 { 1int } else { 0int },
                None => 0int,
            };
            assert(mid =~= before + ne.take(tn));
        }
        if n.kind == NodeKind::Document {
            match &n.properties.title {
                Some(t) => {
                    out.push(
                        IndexEntry {
                            node_id: n.id,
                            path: path.to_string(),
                            text: t.clone(),
                            title: t.clone(),
                            content_type: content_type.to_string(),
                        },
                    );
                },
                None => {},
            }
        }
        proof {
            assert(entry_views(out@) =~= before + node_entries(n@, path@, content_type@));
        }
        i += 1;
    }
    out
}

/// A chunk to embed: node id, document path, text.
pub open spec fn embed_items(nodes: Seq<NodeModel>, path: Seq<char>, k: int) -> Seq<(u64, Seq<char>, Seq<char>)>
    decreases k,
{
    if k <= 0 {
        Seq::empty()
    } else {
        let prev = embed_items(nodes, path, k - 1);
        let n = nodes[k - 1];
        match n.props.text {
            Some(t) => if t.len() > 0 && n.kind == NodeKind::Chunk {
                prev.push((n.id, path, t))
            } else {
                prev
            },
            None => prev,
        }
    }
}

/// The texts of a list of embedding items.
pub open spec fn item_views(v: Seq<(u64, String, String)>) -> Seq<(u64, Seq<char>, Seq<char>)> {
    v.map_values(|x: (u64, String, String)| (x.0, x.1@, x.2@))
}

/// The chunks of a document to embed: every chunk node with non-empty text.
pub fn embed_batch(nodes: &Vec<Node>, path: &str) -> (r: Vec<(u64, String, String)>)
    ensures
        item_views(r@) == embed_items(node_views(nodes@), path@, nodes.len() as int),
{
    let mut out: Vec<(u64, String, String)> = Vec::new();
    let mut i: usize = 0;
    while i < nodes.len()
        invariant
            i <= nodes.len(),
            item_views(out@) == embed_items(node_views(nodes@), path@, i as int),
        decreases nodes.len() - i,
    {
        proof {
            assert(node_views(nodes@)[i as int] == nodes@[i as int]@);
        }
        let ghost before = item_views(out@);
        match &nodes[i].properties.text {
            Some(t) => {
                if crate::text::has_text(t.as_str()) && nodes[i].kind == NodeKind::Chunk {
                    let item = (nodes[i].id, path.to_string(), t.clone());
                    out.push(item);
                    proof {
                        assert(item_views(out@) =~= before.push((item.0, item.1@, item.2@)));
                    }
                }
            },
            None => {},
        }
        i += 1;
    }
    out
}

/// The number of chunk nodes with non-empty text.
pub fn count_text_chunks(nodes: &Vec<Node>) -> (r: u64)
    ensures
        r == embed_items(node_views(nodes@), Seq::empty(), nodes.len() as int).len(),
{
    let mut n: u64 = 0;
    let mut i: usize = 0;
    while i < nodes.len()
        invariant
            i <= nodes.len(),
            n == embed_items(node_views(nodes@), Seq::empty(), i as int).len(),
            n <= i,
        decreases nodes.len() - i,
    {
        proof {
            assert(node_views(nodes@)[i as int] == nodes@[i as int]@);
        }
        match &nodes[i].properties.text {
            Some(t) => {
                if crate::text::has_text(t.as_str()) && nodes[i].kind == NodeKind::Chunk {
                    n = n + 1;
                }
            },
            None => {},
        }
        i += 1;
    }
    n
}

/// The document's record: the first node's id (0 with no nodes) and title.
pub fn document_record(nodes: &Vec<Node>) -> (r: (u64, Option<String>))
    ensures
        nodes.len() == 0 ==> r.0 == 0 && r.1 is None,
        nodes.len() > 0 ==> r.0 == nodes@[0].id && crate::graph::opt_text(r.1)
            == nodes@[0]@.props.title,
{
    if nodes.len() == 0 {
        (0, None)
    } else {
        let title = match &nodes[0].properties.title {
            Some(t) => Some(t.clone()),
            None => None,
        };
        (nodes[0].id, title)
    }
}

// ───────────────────────── entity pairs ─────────────────────────

/// The pairs `(a, b)` for the `b` in `rest` that differ from `a`.
pub open spec fn distinct_with(a: i64, rest: Seq<i64>) -> Seq<(i64, i64)>
    decreases rest.len(),
{
    if rest.len() == 0 {
        Seq::empty()
    } else {
        let prev = distinct_with(a, rest.drop_last());
        if rest.last() != a {
            prev.push((a, rest.last()))
        } else {
            prev
        }
    }
}

/// Every pair `(ids[i], ids[j])` with `i < j` and different ids, ordered by
/// `i` then `j`.
pub open spec fn distinct_pairs(ids: Seq<i64>) -> Seq<(i64, i64)>
    decreases ids.len(),
{
    if ids.len() == 0 {
        Seq::empty()
    } else {
        distinct_with(ids[0], ids.drop_first()) + distinct_pairs(ids.drop_first())
    }
}

/// The recognised entities of one chunk that co-occur: each pair of
/// different entities, in mention order.
pub fn ner_pairs(ids: &Vec<i64>) -> (r: Vec<(i64, i64)>)
    ensures
        r@ == distinct_pairs(ids@),
{
    let mut out: Vec<(i64, i64)> = Vec::new();
    let mut i: usize = 0;
    proof {
        assert(ids@.skip(0) =~= ids@);
    }
    while i < ids.len()
        invariant
            i <= ids.len(),
            distinct_pairs(ids@) == out@ + distinct_pairs(ids@.skip(i as int)),
        decreases ids.len() - i,
    {
        let ghost base = out@;
        let mut j: usize = i + 1;
        proof {
            assert(ids@.subrange(i + 1, i + 1) =~= Seq::<i64>::empty());
        }
        while j < ids.len()
            invariant
                i < ids.len(),
                i + 1 <= j <= ids.len(),
                out@ == base + distinct_with(ids@[i as int], ids@.subrange(i + 1, j as int)),
            decreases ids.len() - j,
        {
            proof {
                assert(ids@.subrange(i + 1, j + 1).drop_last() =~= ids@.subrange(i + 1, j as int));
            }
            if ids[i] != ids[j] {
                out.push((ids[i], ids[j]));
            }
            proof {
                assert(out@ =~= base + distinct_with(ids@[i as int], ids@.subrange(i + 1, j + 1)));
            }
            j += 1;
        }
        proof {
            let t = ids@.skip(i as int);
            assert(t[0] == ids@[i as int]);
            assert(t.drop_first() =~= ids@.skip(i + 1));
            assert(ids@.subrange(i + 1, ids.len() as int) =~= ids@.skip(i + 1));
            assert(out@ + distinct_pairs(ids@.skip(i + 1)) =~= base + distinct_pairs(t));
        }
        i += 1;
    }
    proof {
        assert(ids@.skip(ids.len() as int) =~= Seq::<i64>::empty());
        assert(out@ + distinct_pairs(Seq::<i64>::empty()) =~= out@);
    }
    out
}

// ───────────────────────── stored copies ─────────────────────────

/// The file name of a document's stored copy: the first 16 characters of
/// its hash, then its own extension (else `txt`) for code, or `md` for the
/// rest. `None` where the hash is too short to cut there.
pub open spec fn stored_file_name(hash: Seq<char>, doc_id: Seq<char>, is_code: bool) -> Option<Seq<char>> {
    match crate::text::char_index_at_byte(hash, 16) {
        None => None,
        Some(k) => {
            let ext = if is_code {
                match path_extension(doc_id) {
                    Some(e) => e,
                    None => "txt"@,
                }
            } else {
                "md"@
            };
            Some(hash.take(k) + "."@ + ext)
        },
    }
}

/// The same bytes are stored under the same name, whatever the file's path
/// (for code, whatever its path with the same extension): a copy already
/// written for that content is the one to reuse.
pub proof fn same_bytes_same_stored_name(bytes: Seq<u8>, id_a: Seq<char>, id_b: Seq<char>, is_code: bool)
    requires
        is_code ==> path_extension(id_a) == path_extension(id_b),
    ensures
        stored_file_name(sha256_hex(bytes), id_a, is_code) == stored_file_name(sha256_hex(bytes), id_b, is_code),
{
}

/// The file name of a document's stored copy (see `stored_file_name`).
pub fn stored_copy_name(doc: &DocumentInput) -> (r: Option<String>)
    ensures
        match stored_file_name(
            doc.content_hash@,
            doc.doc_id@,
            doc.content_type@ is Code,
        ) {
            Some(n) => r matches Some(x) && x@ == n,
            None => r is None,
        },
{
    let hash = chars_of(doc.content_hash.as_str());
    let k = crate::text::char_index_of_byte(&hash, 16);
    proof {
        crate::ingest::plaintext::lemma_char_index_at_byte(doc.content_hash@, 16);
    }
    match k {
        None => None,
        Some(k) => {
            let is_code = match &doc.content_type {
                ContentType::Code { .. } => true,
                _ => false,
            };
            let ext = if is_code {
                match extension_of(doc.doc_id.as_str()) {
                    Some(e) => e,
                    None => "txt".to_string(),
                }
            } else {
                "md".to_string()
            };
            let prefix = slice_chars(&hash, 0, k);
            let with_dot = concat(&prefix, &chars_of("."));
            let name = concat(&with_dot, &chars_of(ext.as_str()));
            proof {
                assert(prefix@ =~= doc.content_hash@.take(k as int));
            }
            Some(string_of(&name))
        },
    }
}

/// The text of a stored copy: code as it is; anything else as markdown with
/// a front matter block naming its source, title, type, when it was
/// ingested and when it was modified.
pub open spec fn stored_body(
    doc_id: Seq<char>,
    name: Seq<char>,
    ct: ContentKind,
    ingested: Seq<char>,
    modified: Seq<char>,
    content: Seq<char>,
) -> Seq<char> {
    if ct is Code {
        content
    } else {
        "---\nsource: "@ + doc_id + "\ntitle: "@ + name + "\ntype: "@ + content_kind_name(ct)
            + "\ningested: "@ + ingested + "\nmodified: "@ + modified + "\n---\n\n"@ + content
    }
}

/// The text of a document's stored copy, ingested at `ingested` (RFC 3339).
pub fn stored_copy_body(doc: &DocumentInput, ingested: &str) -> (r: String)
    ensures
        r@ == stored_body(
            doc.doc_id@,
            doc.name@,
            doc.content_type@,
            ingested@,
            doc.modified@,
            doc.content@,
        ),
{
    match &doc.content_type {
        ContentType::Code { .. } => doc.content.clone(),
        _ => {
            let ct = doc.content_type.as_str();
            let mut out = chars_of("---\nsource: ");
            out = concat(&out, &chars_of(doc.doc_id.as_str()));
            out = concat(&out, &chars_of("\ntitle: "));
            out = concat(&out, &chars_of(doc.name.as_str()));
            out = concat(&out, &chars_of("\ntype: "));
            out = concat(&out, &chars_of(ct.as_str()));
            out = concat(&out, &chars_of("\ningested: "));
            out = concat(&out, &chars_of(ingested));
            out = concat(&out, &chars_of("\nmodified: "));
            out = concat(&out, &chars_of(doc.modified.as_str()));
            out = concat(&out, &chars_of("\n---\n\n"));
            out = concat(&out, &chars_of(doc.content.as_str()));
            string_of(&out)
        },
    }
}


// ───────────────────────── one document ─────────────────────────

/// What indexing one document comes to.
pub enum DocumentPlan {
    /// The stored copy has the same hash: nothing to do.
    Skip,
    /// The document's graph cannot be built; its old entries, if it had any
    /// (`replace`), are removed all the same.
    Fail { replace: bool },
    /// The document is indexed: its old entries removed first (`replace`),
    /// then its nodes and edges stored, its texts indexed, its chunks
    /// embedded, and its record written.
    Index {
        replace: bool,
        nodes: Vec<Node>,
        edges: Vec<Edge>,
        entries: Vec<IndexEntry>,
        embed: Vec<(u64, String, String)>,
        chunks: u64,
        doc_node: u64,
        title: Option<String>,
    },
}

/// The stored hash is the content's hash.
pub open spec fn stored_same(stored_hash: Option<&str>, content_hash: Seq<char>) -> bool {
    stored_hash matches Some(h) && h@ == content_hash
}

/// Decides what indexing a document comes to, given the hash stored for its
/// path (if any); new node ids are taken from `next_id` on.
pub fn plan_document(doc: &DocumentInput, stored_hash: Option<&str>, next_id: &mut u64) -> (r: DocumentPlan)
    ensures
        stored_same(stored_hash, doc.content_hash@) ==> (r is Skip && *final(next_id) == *old(next_id)),
        !stored_same(stored_hash, doc.content_hash@) ==> match document_graph(
            doc.doc_id@,
            doc.content@,
            doc.content_type@,
            *old(next_id),
        ) {
            Some((n, e, next)) => (r matches DocumentPlan::Index {
                replace,
                nodes,
                edges,
                entries,
                embed,
                chunks,
                doc_node,
                title,
            } && replace == stored_hash is Some && node_views(nodes@) == n && edge_views(edges@) == e
                && *final(next_id) == next && entry_views(entries@) == index_entries_of(
                n,
                doc.doc_id@,
                content_kind_name(doc.content_type@),
                n.len() as int,
            ) && item_views(embed@) == embed_items(n, doc.doc_id@, n.len() as int) && chunks == embed_items(
                n,
                Seq::empty(),
                n.len() as int,
            ).len() && (n.len() == 0 ==> doc_node == 0 && title is None) && (n.len() > 0 ==> doc_node
                == n[0].id && crate::graph::opt_text(title) == n[0].props.title)),
            None => (r matches DocumentPlan::Fail { replace } && replace == stored_hash is Some && *final(next_id)
                == *old(next_id)),
        },
{
    let f = freshness(stored_hash, doc.content_hash.as_str());
    if f == Freshness::Unchanged {
        return DocumentPlan::Skip;
    }
    let replace = f == Freshness::Changed;
    match extract_document(doc, next_id) {
        None => DocumentPlan::Fail { replace },
        Some((nodes, edges)) => {
            let ct = doc.content_type.as_str();
            let entries = index_entries(&nodes, doc.doc_id.as_str(), ct.as_str());
            let embed = embed_batch(&nodes, doc.doc_id.as_str());
            let chunks = count_text_chunks(&nodes);
            let (doc_node, title) = document_record(&nodes);
            proof {
                assert(node_views(nodes@).len() == nodes.len());
                if nodes.len() > 0 {
                    assert(node_views(nodes@)[0] == nodes@[0]@);
                }
            }
            DocumentPlan::Index { replace, nodes, edges, entries, embed, chunks, doc_node, title }
        },
    }
}

} // verus!
