//! Where a database's files live: the RAGgy home, the database directory
//! under `dbs/`, and the shared models directory.
use vstd::prelude::*;
use crate::text::str_eq;

verus! {

broadcast use vstd::string::group_string_axioms;

/// The path `part` joined onto `base`, as `std::path::Path::join` builds it.
pub uninterp spec fn joined_path(base: Seq<char>, part: Seq<char>) -> Seq<char>;

/// Calls `std::path::Path::join` and returns the path as text. Trusted: the
/// result is the named `joined_path` of the two texts (both are UTF-8, so
/// the text of the joined path is exact).
#[verifier::external_body]
fn join_path(base: &str, part: &str) -> (r: String)
    ensures
        r@ == joined_path(base@, part@),
{
    std::path::Path::new(base).join(part).to_string_lossy().to_string()
}

/// Resolved paths for one database.
pub struct Workspace {
    /// The RAGgy home (`~/.raggy/` unless overridden).
    pub raggy_dir: String,
    /// The database's name, e.g. `default`.
    pub db_name: String,
    /// `<home>/dbs/<name>`.
    pub db_dir: String,
    /// `<home>/models`, shared by all databases.
    pub models_dir: String,
}

/// The database chosen: the override, else the environment's choice, else
/// the global default.
pub open spec fn chosen_db(db_override: Option<Seq<char>>, env_db: Option<Seq<char>>, default_db: Seq<char>) -> Seq<char> {
    match db_override {
        Some(d) => d,
        None => match env_db {
            Some(e) => e,
            None => default_db,
        },
    }
}

impl Workspace {
    /// The workspace of database `db_name` under the home `raggy_dir`.
    pub open spec fn laid_out(self, raggy_dir: Seq<char>, db_name: Seq<char>) -> bool {
        &&& self.raggy_dir@ == raggy_dir
        &&& self.db_name@ == db_name
        &&& self.db_dir@ == joined_path(joined_path(raggy_dir, "dbs"@), db_name)
        &&& self.models_dir@ == joined_path(raggy_dir, "models"@)
    }

    /// The paths of database `db_name` under `raggy_dir`.
    pub fn at(raggy_dir: String, db_name: String) -> (r: Self)
        ensures
            r.laid_out(raggy_dir@, db_name@),
    {
        let dbs = join_path(raggy_dir.as_str(), "dbs");
        let db_dir = join_path(dbs.as_str(), db_name.as_str());
        let models_dir = join_path(raggy_dir.as_str(), "models");
        Workspace { raggy_dir, db_name, db_dir, models_dir }
    }

    /// The workspace for a home whose existence and global default database
    /// (`default_db`) are known: the database is `db_override`, else the one
    /// the environment names (`env_db`), else the default.
    pub fn resolve(
        raggy_dir: String,
        db_override: Option<&str>,
        env_db: Option<String>,
        default_db: String,
    ) -> (r: Self)
        ensures
            r.laid_out(
                raggy_dir@,
                chosen_db(
                    match db_override {
                        Some(d) => Some(d@),
                        None => None,
                    },
                    match env_db {
                        Some(e) => Some(e@),
                        None => None,
                    },
                    default_db@,
                ),
            ),
    {
        let name = match db_override {
            Some(d) => d.to_string(),
            None => match env_db {
                Some(e) => e,
                None => default_db,
            },
        };
        Self::at(raggy_dir, name)
    }

    /// The SQLite database file.
    pub fn db_path(&self) -> (r: String)
        ensures
            r@ == joined_path(self.db_dir@, "raggy.db"@),
    {
        join_path(self.db_dir.as_str(), "raggy.db")
    }

    /// The full-text index directory.
    pub fn tantivy_dir(&self) -> (r: String)
        ensures
            r@ == joined_path(self.db_dir@, "tantivy"@),
    {
        join_path(self.db_dir.as_str(), "tantivy")
    }

    /// The vector index directory.
    pub fn vector_dir(&self) -> (r: String)
        ensures
            r@ == joined_path(self.db_dir@, "vectors"@),
    {
        join_path(self.db_dir.as_str(), "vectors")
    }

    /// Where processed copies of documents are stored.
    pub fn documents_dir(&self) -> (r: String)
        ensures
            r@ == joined_path(self.db_dir@, "documents"@),
    {
        join_path(self.db_dir.as_str(), "documents")
    }

    /// Where the embedding model of the given name lives.
    pub fn embedding_model_dir(&self, model: &str) -> (r: String)
        ensures
            r@ == joined_path(self.models_dir@, model@),
    {
        join_path(self.models_dir.as_str(), model)
    }

    /// Where the entity-recognition model of the given name lives.
    pub fn ner_model_dir(&self, model: &str) -> (r: String)
        ensures
            r@ == joined_path(self.models_dir@, model@),
    {
        join_path(self.models_dir.as_str(), model)
    }
}

/// Why a database cannot be deleted.
#[derive(Debug, Clone, Copy, PartialEq, Eq, Structural)]
pub enum DeleteRefusal {
    /// The default database is never deleted.
    IsDefault,
}

/// Whether a database may be deleted: every one but `default`.
pub fn check_deletable(name: &str) -> (r: Result<(), DeleteRefusal>)
    ensures
        r is Err <==> name@ == "default"@,
{
    if str_eq(name, "default") {
        Err(DeleteRefusal::IsDefault)
    } else {
        Ok(())
    }
}

} // verus!
