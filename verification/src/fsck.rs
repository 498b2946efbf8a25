//! What the fsck tool decides before it opens a store: which databases make one,
//! and which roots it may touch.

use vstd::prelude::*;
use vstd::string::*;

use crate::metastore::block::{join_path, path_join};
use crate::metastore::store_header::StoreInit;
use crate::scrub::pairing::{blocks_db_at, blocks_db_path};

verus! {

/// The two databases a metadata root holds: the namespace database and the
/// shared blocks database.
pub fn store_databases(meta_root: &str) -> (paths: [String; 2])
    ensures
        paths@[0]@ == path_join(meta_root@, "db"@),
        paths@[1]@ == blocks_db_at(meta_root@),
{
    [join_path(meta_root, "db"), blocks_db_path(meta_root)]
}

/// Refuses a metadata root that is not already a store, by the first database
/// that is missing. `found` says of each database whether it is there.
///
/// Asked before anything is opened, because opening is what creates: a mistyped
/// path would become an empty store with a clean report.
pub fn refuse_unless_store_exists(meta_root: &str, found: &[StoreInit; 2]) -> (out: Result<
    (),
    String,
>)
    ensures
        match out {
            Ok(()) => found@[0] is Open && found@[1] is Open,
            Err(text) => {
                ||| found@[0] is Create && text@ == "no store at "@ + path_join(meta_root@, "db"@)
                ||| found@[0] is Open && found@[1] is Create && text@ == "no store at "@
                    + blocks_db_at(meta_root@)
            },
        },
{
    let paths = store_databases(meta_root);
    let mut text = "no store at ".to_owned();
    match (found[0], found[1]) {
        (StoreInit::Create, _) => {
            text.append(&paths[0]);
            Err(text)
        },
        (StoreInit::Open, StoreInit::Create) => {
            text.append(&paths[1]);
            Err(text)
        },
        (StoreInit::Open, StoreInit::Open) => Ok(()),
    }
}

/// What is said of a re-pair whose roots were not both spelled out.
pub const RE_PAIR_ROOTS: &'static str =
    "--re-pair needs both --meta-root and --fs-root spelled out: it rewrites the store id marker under --fs-root to match the database under --meta-root, and neither path may be a default";

/// The roots of a re-pair. It rewrites one of them, and a default is never a
/// pairing anybody meant, so both have to be named.
pub fn re_pair_roots(meta_root: Option<String>, fs_root: Option<String>) -> (out: Result<
    (String, String),
    String,
>)
    ensures
        match (meta_root, fs_root) {
            (Some(m), Some(f)) => out == Ok::<(String, String), String>((m, f)),
            (_, _) => out matches Err(text) && text@ == RE_PAIR_ROOTS@,
        },
{
    match (meta_root, fs_root) {
        (Some(meta_root), Some(fs_root)) => Ok((meta_root, fs_root)),
        (_, _) => Err(RE_PAIR_ROOTS.to_owned()),
    }
}

} // verus!
