//! The migration writer's naming scheme: a timestamped migration name,
//! and the script file names of a reversible pair or a single
//! irreversible script.

use vstd::prelude::*;
use vstd::string::StringExecFns;

verus! {

/// Relies on chrono's `Utc::now` and its `format` with `%Y%m%d%H%M%S`:
/// the reading of the clock, of which nothing is assumed.
#[verifier::external_body]
fn utc_timestamp() -> String {
    chrono::Utc::now().format("%Y%m%d%H%M%S").to_string()
}

/// The migration name: the UTC timestamp at second precision, an
/// underscore, and the operator-supplied name.
pub fn migration_name(name: &str) -> (r: String)
    ensures
        exists|stamp: Seq<char>| r@ == #[trigger] (stamp + "_"@) + name@,
{
    let mut s = utc_timestamp();
    let ghost stamp = s@;
    s.append("_");
    s.append(name);
    proof {
        assert(s@ == (stamp + "_"@) + name@);
    }
    s
}

/// The script file names of one migration: the `.up.sql`/`.down.sql`
/// pair when the migration is reversible, else one bare `.sql` script.
pub open spec fn spec_migration_files(base: Seq<char>, reversible: bool) -> (Seq<char>, Option<
    Seq<char>,
>) {
    if reversible {
        (base + ".up.sql"@, Some(base + ".down.sql"@))
    } else {
        (base + ".sql"@, None)
    }
}

pub fn migration_file_names(base: &str, reversible: bool) -> (r: (String, Option<String>))
    ensures
        r.0@ == spec_migration_files(base@, reversible).0,
        match (r.1, spec_migration_files(base@, reversible).1) {
            (Some(a), Some(b)) => a@ == b,
            (None, None) => true,
            _ => false,
        },
{
    if reversible {
        let mut up = String::from_str(base);
        up.append(".up.sql");
        let mut down = String::from_str(base);
        down.append(".down.sql");
        (up, Some(down))
    } else {
        let mut up = String::from_str(base);
        up.append(".sql");
        (up, None)
    }
}

} // verus!
