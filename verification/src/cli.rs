//! The command surface: what a thin wrapper around the library parses the
//! command line into.

use vstd::prelude::*;

verus! {

/// A parsed memory command line.
pub struct MemoryCli {
    pub cmd: MemoryCommand,
}

/// The memory subcommands, with their plain arguments.
pub enum MemoryCommand {
    /// Creates one item with the given content.
    Add { content: String },
    /// Prints the content of every item.
    List,
    /// Replaces an item's content and moves its update stamp.
    Edit { id: String, content: String },
    /// Deletes an item; absent ids are a no-op.
    Rm { id: String },
    /// Sets an item's status to archived.
    Archive { id: String },
    /// Sets an item's status back to active.
    Unarchive { id: String },
    /// Writes every record, one per line.
    Export,
    /// Reads records, upserting by id, and reports the count.
    Import,
    /// Streams a record file into the relational backend.
    Migrate { jsonl: String, sqlite: String },
    /// Rewrites a record file without blanks and duplicate ids.
    Compact { input: String, output: String },
    /// Reports the totals.
    Stats,
    /// Ranks and selects items for a query.
    Recall { query: String },
}

} // verus!
