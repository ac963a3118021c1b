//! The item model: typed records with scope, status, kind, timestamps,
//! relevance hints, counters and optional expiry.

use vstd::prelude::*;

verus! {

/// Logical partition an item belongs to.
#[derive(Clone, Copy, Debug, PartialEq, Eq, Structural)]
pub enum Scope {
    Global,
    Repo,
    Dir,
}

/// Role of an item; preferences and facts are the durable kinds.
#[derive(Clone, Copy, Debug, PartialEq, Eq, Structural)]
pub enum Kind {
    Pref,
    Fact,
    Profile,
    Instruction,
    Note,
}

/// Whether an item takes part in recall.
#[derive(Clone, Copy, Debug, PartialEq, Eq, Structural)]
pub enum Status {
    Active,
    Archived,
}

/// Error kinds surfaced by the store operations.
#[derive(Clone, Copy, Debug, PartialEq, Eq, Structural)]
pub enum StoreError {
    /// `update` or `archive` addressed an id that is not present.
    NotFound,
    /// `add` would duplicate an id in a backend that enforces primary keys.
    Conflict,
    /// A record failed to decode.
    Parse,
    /// The requested backend is not available here.
    Unsupported,
}

/// Context hints that raise an item's recall score when they match.
#[derive(Clone, Debug)]
pub struct RelevanceHints {
    pub files: Vec<String>,
    pub crates: Vec<String>,
    pub languages: Vec<String>,
    pub commands: Vec<String>,
}

/// Usage counters; `used_count` grows on every recall that selects the item.
#[derive(Clone, Debug)]
pub struct Counters {
    pub seen_count: u32,
    pub used_count: u32,
    pub last_used_at: Option<String>,
}

/// Optional expiry information, carried through but not enforced.
#[derive(Clone, Debug)]
pub struct Expiry {
    pub ttl_secs: Option<u64>,
    pub review_after: Option<String>,
}

/// One stored record of memory.
#[derive(Clone, Debug)]
pub struct MemoryItem {
    pub id: String,
    pub created_at: String,
    pub updated_at: String,
    pub schema_version: u16,
    pub source: String,
    pub scope: Scope,
    pub status: Status,
    pub kind: Kind,
    pub content: String,
    pub tags: Vec<String>,
    pub relevance_hints: RelevanceHints,
    pub counters: Counters,
    pub expiry: Option<Expiry>,
}

/// Mathematical value of a `RelevanceHints`.
#[verifier::ext_equal]
pub ghost struct HintsView {
    pub files: Seq<Seq<char>>,
    pub crates: Seq<Seq<char>>,
    pub languages: Seq<Seq<char>>,
    pub commands: Seq<Seq<char>>,
}

/// Mathematical value of a `Counters`.
#[verifier::ext_equal]
pub ghost struct CountersView {
    pub seen_count: u32,
    pub used_count: u32,
    pub last_used_at: Option<Seq<char>>,
}

/// Mathematical value of an `Expiry`.
#[verifier::ext_equal]
pub ghost struct ExpiryView {
    pub ttl_secs: Option<u64>,
    pub review_after: Option<Seq<char>>,
}

/// Mathematical value of a `MemoryItem`; contracts speak of this.
#[verifier::ext_equal]
pub ghost struct ItemView {
    pub id: Seq<char>,
    pub created_at: Seq<char>,
    pub updated_at: Seq<char>,
    pub schema_version: u16,
    pub source: Seq<char>,
    pub scope: Scope,
    pub status: Status,
    pub kind: Kind,
    pub content: Seq<char>,
    pub tags: Seq<Seq<char>>,
    pub relevance_hints: HintsView,
    pub counters: CountersView,
    pub expiry: Option<ExpiryView>,
}

impl View for RelevanceHints {
    type V = HintsView;

    open spec fn view(&self) -> HintsView {
        HintsView {
            files: self.files.deep_view(),
            crates: self.crates.deep_view(),
            languages: self.languages.deep_view(),
            commands: self.commands.deep_view(),
        }
    }
}

impl View for Counters {
    type V = CountersView;

    open spec fn view(&self) -> CountersView {
        CountersView {
            seen_count: self.seen_count,
            used_count: self.used_count,
            last_used_at: self.last_used_at.deep_view(),
        }
    }
}

impl View for Expiry {
    type V = ExpiryView;

    open spec fn view(&self) -> ExpiryView {
        ExpiryView { ttl_secs: self.ttl_secs, review_after: self.review_after.deep_view() }
    }
}

impl View for MemoryItem {
    type V = ItemView;

    open spec fn view(&self) -> ItemView {
        ItemView {
            id: self.id@,
            created_at: self.created_at@,
            updated_at: self.updated_at@,
            schema_version: self.schema_version,
            source: self.source@,
            scope: self.scope,
            status: self.status,
            kind: self.kind,
            content: self.content@,
            tags: self.tags.deep_view(),
            relevance_hints: self.relevance_hints@,
            counters: self.counters@,
            expiry: match self.expiry {
                Some(e) => Some(e@),
                None => None,
            },
        }
    }
}

/// The views of a sequence of items.
pub open spec fn items_view(items: Seq<MemoryItem>) -> Seq<ItemView> {
    items.map_values(|i: MemoryItem| i@)
}

/// Clones every string of a vector, keeping the contents.
pub fn clone_strings(v: &Vec<String>) -> (r: Vec<String>)
    ensures
        r.deep_view() == v.deep_view(),
{
    let mut r: Vec<String> = Vec::new();
    let mut i: usize = 0;
    while i < v.len()
        invariant
            i <= v.len(),
            r@.len() == i,
            forall|k: int| 0 <= k < i ==> r@[k]@ == v@[k]@,
        decreases v.len() - i,
    {
        r.push(v[i].clone());
        i = i + 1;
    }
    proof {
        assert(r.deep_view() =~= v.deep_view());
    }
    r
}

/// Clones an optional string, keeping the contents.
pub fn clone_opt_string(v: &Option<String>) -> (r: Option<String>)
    ensures
        r.deep_view() == v.deep_view(),
{
    match v {
        Some(s) => Some(s.clone()),
        None => None,
    }
}

impl RelevanceHints {
    /// Empty hints.
    pub fn none() -> (r: RelevanceHints)
        ensures
            r@.files.len() == 0,
            r@.crates.len() == 0,
            r@.languages.len() == 0,
            r@.commands.len() == 0,
    {
        let r = RelevanceHints {
            files: Vec::new(),
            crates: Vec::new(),
            languages: Vec::new(),
            commands: Vec::new(),
        };
        proof {
            assert(r@.files =~= Seq::<Seq<char>>::empty());
            assert(r@.crates =~= Seq::<Seq<char>>::empty());
            assert(r@.languages =~= Seq::<Seq<char>>::empty());
            assert(r@.commands =~= Seq::<Seq<char>>::empty());
        }
        r
    }

    /// A copy with the same contents.
    pub fn duplicate(&self) -> (r: RelevanceHints)
        ensures
            r@ == self@,
    {
        RelevanceHints {
            files: clone_strings(&self.files),
            crates: clone_strings(&self.crates),
            languages: clone_strings(&self.languages),
            commands: clone_strings(&self.commands),
        }
    }
}

impl Counters {
    /// Counters of a freshly created item.
    pub fn zero() -> (r: Counters)
        ensures
            r@ == (CountersView { seen_count: 0, used_count: 0, last_used_at: None }),
    {
        Counters { seen_count: 0, used_count: 0, last_used_at: None }
    }

    /// A copy with the same contents.
    pub fn duplicate(&self) -> (r: Counters)
        ensures
            r@ == self@,
    {
        Counters {
            seen_count: self.seen_count,
            used_count: self.used_count,
            last_used_at: clone_opt_string(&self.last_used_at),
        }
    }
}

impl Expiry {
    /// A copy with the same contents.
    pub fn duplicate(&self) -> (r: Expiry)
        ensures
            r@ == self@,
    {
        Expiry { ttl_secs: self.ttl_secs, review_after: clone_opt_string(&self.review_after) }
    }
}

impl MemoryItem {
    /// A copy with the same contents, known to the verifier.
    pub fn duplicate(&self) -> (r: MemoryItem)
        ensures
            r@ == self@,
    {
        MemoryItem {
            id: self.id.clone(),
            created_at: self.created_at.clone(),
            updated_at: self.updated_at.clone(),
            schema_version: self.schema_version,
            source: self.source.clone(),
            scope: self.scope,
            status: self.status,
            kind: self.kind,
            content: self.content.clone(),
            tags: clone_strings(&self.tags),
            relevance_hints: self.relevance_hints.duplicate(),
            counters: self.counters.duplicate(),
            expiry: match &self.expiry {
                Some(e) => Some(e.duplicate()),
                None => None,
            },
        }
    }
}

/// The lowercase name an item's scope is stored under.
pub fn scope_as_str(s: &Scope) -> (r: &'static str)
    ensures
        r@ == scope_str(*s),
{
    match s {
        Scope::Global => "global",
        Scope::Repo => "repo",
        Scope::Dir => "dir",
    }
}

/// The lowercase name of a scope, as a sequence of characters.
pub open spec fn scope_str(s: Scope) -> Seq<char> {
    match s {
        Scope::Global => "global"@,
        Scope::Repo => "repo"@,
        Scope::Dir => "dir"@,
    }
}

/// The lowercase name an item's status is stored under.
pub fn status_as_str(s: &Status) -> (r: &'static str)
    ensures
        r@ == status_str(*s),
{
    match s {
        Status::Active => "active",
        Status::Archived => "archived",
    }
}

/// The lowercase name of a status, as a sequence of characters.
pub open spec fn status_str(s: Status) -> Seq<char> {
    match s {
        Status::Active => "active"@,
        Status::Archived => "archived"@,
    }
}

/// The lowercase name an item's kind is stored under.
pub fn kind_as_str(k: &Kind) -> (r: &'static str)
    ensures
        r@ == kind_str(*k),
{
    match k {
        Kind::Pref => "pref",
        Kind::Fact => "fact",
        Kind::Profile => "profile",
        Kind::Instruction => "instruction",
        Kind::Note => "note",
    }
}

/// The lowercase name of a kind, as a sequence of characters.
pub open spec fn kind_str(k: Kind) -> Seq<char> {
    match k {
        Kind::Pref => "pref"@,
        Kind::Fact => "fact"@,
        Kind::Profile => "profile"@,
        Kind::Instruction => "instruction"@,
        Kind::Note => "note"@,
    }
}

/// Reads a stored scope name.
pub fn parse_scope(s: &str) -> (r: Result<Scope, StoreError>)
    ensures
        match r {
            Ok(sc) => s@ == scope_str(sc),
            Err(e) => e == StoreError::Parse && (forall|sc: Scope| s@ != scope_str(sc)),
        },
{
    if crate::text::str_eq(s, "global") {
        Ok(Scope::Global)
    } else if crate::text::str_eq(s, "repo") {
        Ok(Scope::Repo)
    } else if crate::text::str_eq(s, "dir") {
        Ok(Scope::Dir)
    } else {
        proof {
            assert forall|sc: Scope| s@ != scope_str(sc) by {
                match sc {
                    Scope::Global => {},
                    Scope::Repo => {},
                    Scope::Dir => {},
                }
            }
        }
        Err(StoreError::Parse)
    }
}

/// Reads a stored status name.
pub fn parse_status(s: &str) -> (r: Result<Status, StoreError>)
    ensures
        match r {
            Ok(st) => s@ == status_str(st),
            Err(e) => e == StoreError::Parse && (forall|st: Status| s@ != status_str(st)),
        },
{
    if crate::text::str_eq(s, "active") {
        Ok(Status::Active)
    } else if crate::text::str_eq(s, "archived") {
        Ok(Status::Archived)
    } else {
        proof {
            assert forall|st: Status| s@ != status_str(st) by {
                match st {
                    Status::Active => {},
                    Status::Archived => {},
                }
            }
        }
        Err(StoreError::Parse)
    }
}

/// Reads a stored kind name.
pub fn parse_kind(s: &str) -> (r: Result<Kind, StoreError>)
    ensures
        match r {
            Ok(k) => s@ == kind_str(k),
            Err(e) => e == StoreError::Parse && (forall|k: Kind| s@ != kind_str(k)),
        },
{
    if crate::text::str_eq(s, "pref") {
        Ok(Kind::Pref)
    } else if crate::text::str_eq(s, "fact") {
        Ok(Kind::Fact)
    } else if crate::text::str_eq(s, "profile") {
        Ok(Kind::Profile)
    } else if crate::text::str_eq(s, "instruction") {
        Ok(Kind::Instruction)
    } else if crate::text::str_eq(s, "note") {
        Ok(Kind::Note)
    } else {
        proof {
            assert forall|k: Kind| s@ != kind_str(k) by {
                match k {
                    Kind::Pref => {},
                    Kind::Fact => {},
                    Kind::Profile => {},
                    Kind::Instruction => {},
                    Kind::Note => {},
                }
            }
        }
        Err(StoreError::Parse)
    }
}

/// Totals reported by `stats`.
#[derive(Clone, Copy, Debug, PartialEq, Eq, Structural)]
pub struct ScopeCounts {
    pub global: usize,
    pub repo: usize,
    pub dir: usize,
}

/// The stats object: item totals overall, by status and by scope.
#[derive(Clone, Copy, Debug, PartialEq, Eq, Structural)]
pub struct Stats {
    pub total: usize,
    pub active: usize,
    pub archived: usize,
    pub by_scope: ScopeCounts,
}

} // verus!
