//! The file-backed storage stub: one file per entity table under a base
//! path. The writing itself is I/O and lives with the caller; here is
//! the path rule it follows.

use vstd::prelude::*;
use vstd::string::StringExecFns;

verus! {

/// A storage backend that keeps each table in one file under a base
/// path.
#[derive(Debug)]
pub struct FileStorage {
    pub base_path: String,
}

impl FileStorage {
    pub fn new(base_path: String) -> (r: Self)
        ensures
            r.base_path == base_path,
    {
        FileStorage { base_path }
    }

    /// The file that backs one table: `{base}/{table}.json`.
    pub fn table_file(&self, table: &str) -> (r: String)
        ensures
            r@ == self.base_path@ + "/"@ + table@ + ".json"@,
    {
        let mut s = self.base_path.clone();
        s.append("/");
        s.append(table);
        s.append(".json");
        proof {
            assert(s@ =~= self.base_path@ + "/"@ + table@ + ".json"@);
        }
        s
    }
}

} // verus!
