//! Backend selection and storage paths.  The caller reads the environment
//! and hands the selector value in; the paths are fixed under the data
//! directory of a root.

use vstd::prelude::*;

use crate::text::chars_to_string;
use crate::text::lower_seq;
use crate::text::push_str_chars;
use crate::text::str_to_chars;

verus! {

/// Which backend persists the items.
#[derive(Clone, Copy, Debug, PartialEq, Eq, Structural)]
pub enum Backend {
    Jsonl,
    Sqlite,
}

/// The backend a selector value names: the relational backend on
/// `sqlite` in any case, the file backend otherwise.
pub open spec fn backend_of(v: Seq<char>) -> Backend {
    if lower_seq(v) == "sqlite"@ {
        Backend::Sqlite
    } else {
        Backend::Jsonl
    }
}

/// Reads a backend selector value, case-insensitively.
pub fn backend_from_str(v: &str) -> (r: Backend)
    ensures
        r == backend_of(v@),
{
    let cs = str_to_chars(v);
    let lc = crate::text::lower_chars(&cs);
    let sq = str_to_chars("sqlite");
    proof {
        reveal_strlit("sqlite");
    }
    if crate::text::chars_eq(&lc, &sq) {
        Backend::Sqlite
    } else {
        Backend::Jsonl
    }
}

/// The file the chosen backend stores under a data root.
pub open spec fn store_path(root: Seq<char>, backend: Backend) -> Seq<char> {
    match backend {
        Backend::Jsonl => root + "/.codex/memory/memory.jsonl"@,
        Backend::Sqlite => root + "/.codex/memory/memory.db"@,
    }
}

/// Builds the storage path of the chosen backend under a root.
pub fn store_path_exec(root: &str, backend: Backend) -> (r: String)
    ensures
        r@ == store_path(root@, backend),
{
    let mut out = str_to_chars(root);
    match backend {
        Backend::Jsonl => push_str_chars(&mut out, "/.codex/memory/memory.jsonl"),
        Backend::Sqlite => push_str_chars(&mut out, "/.codex/memory/memory.db"),
    }
    chars_to_string(&out)
}

} // verus!
