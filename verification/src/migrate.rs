//! Schema migrations: the ordered list of versioned steps and the selection
//! of the ones still to apply. Running the steps against a database is the
//! surrounding application's job; which steps run is decided here.
use vstd::prelude::*;

verus! {

/// One versioned migration step.
#[derive(Clone, Copy, Debug)]
pub struct Migration {
    /// Monotonically increasing version; the store records the highest one
    /// applied.
    pub version: i64,
    /// Human-readable summary.
    pub description: &'static str,
    /// The statements this step runs, beyond the fixed baseline DDL.
    pub sql: &'static str,
}

/// Every migration, in application order.
pub fn all_migrations() -> (r: Vec<Migration>)
    ensures
        r@.len() == 1,
        r@[0].version == 1,
        r@[0].description@ == "init core tables"@,
        forall|i: int, j: int|
            0 <= i < j < r@.len() ==> #[trigger] r@[i].version < #[trigger] r@[j].version,
{
    let mut v: Vec<Migration> = Vec::new();
    v.push(
        Migration {
            version: 1,
            description: "init core tables",
            sql: "-- the baseline tables and indexes are created separately",
        },
    );
    v
}

/// The migrations a store at `current_version` still has to apply: exactly
/// the steps newer than it, in order.
pub fn pending_migrations(current_version: i64) -> (r: Vec<Migration>)
    ensures
        forall|k: int| 0 <= k < r@.len() ==> (#[trigger] r@[k]).version > current_version,
        r@.len() == (if current_version < 1 {
            1int
        } else {
            0
        }),
        current_version < 1 ==> (r@[0].version == 1 && r@[0].description@
            == "init core tables"@),
{
    let all = all_migrations();
    let mut out: Vec<Migration> = Vec::new();
    let n = all.len();
    let mut i: usize = 0;
    while i < n
        invariant
            i <= n,
            n == all@.len(),
            n == 1,
            all@[0].version == 1,
            all@[0].description@ == "init core tables"@,
            forall|k: int| 0 <= k < out@.len() ==> (#[trigger] out@[k]).version > current_version,
            out@.len() == (if current_version < 1 && i > 0 {
                1int
            } else {
                0
            }),
            current_version < 1 && i > 0 ==> (out@[0].version == 1 && out@[0].description@
                == "init core tables"@),
        decreases n - i,
    {
        if all[i].version > current_version {
            out.push(all[i]);
        }
        i = i + 1;
    }
    out
}

} // verus!
