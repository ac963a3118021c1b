//! The canonical line encoding of a memory item: one object per line with a
//! fixed field order, parsed back by a verified parser that undoes it.  The
//! parser tolerates fields it does not know, wherever they stand among the
//! record's own, so readers accept what a future writer may add.

use vstd::prelude::*;

use crate::codec::dig_val;
use crate::codec::digits;
use crate::codec::lemma_digits_are_digits;
use crate::codec::lemma_p_lit_rt;
use crate::codec::lemma_p_str_array_rt;
use crate::codec::lemma_p_str_rt;
use crate::codec::lemma_p_u64_rt;
use crate::codec::enc_str;
use crate::codec::enc_str_array;
use crate::codec::expect_lit;
use crate::codec::p_lit;
use crate::codec::p_str;
use crate::codec::p_str_array;
use crate::codec::p_u64;
use crate::codec::parse_str_array_at;
use crate::codec::parse_string_at;
use crate::codec::parse_u64_at;
use crate::codec::push_quoted;
use crate::codec::push_str_array;
use crate::codec::push_u64;
use crate::text::chars_to_string;
use crate::types::Counters;
use crate::types::CountersView;
use crate::types::Expiry;
use crate::types::ExpiryView;
use crate::types::HintsView;
use crate::types::ItemView;
use crate::types::Kind;
use crate::types::MemoryItem;
use crate::types::RelevanceHints;
use crate::types::Scope;
use crate::types::Status;

verus! {

broadcast use vstd::string::group_string_axioms;

/// A quoted scope name.
pub open spec fn scope_json(s: Scope) -> Seq<char> {
    match s {
        Scope::Global => "\"global\""@,
        Scope::Repo => "\"repo\""@,
        Scope::Dir => "\"dir\""@,
    }
}

/// A quoted status name.
pub open spec fn status_json(s: Status) -> Seq<char> {
    match s {
        Status::Active => "\"active\""@,
        Status::Archived => "\"archived\""@,
    }
}

/// A quoted kind name.
pub open spec fn kind_json(k: Kind) -> Seq<char> {
    match k {
        Kind::Pref => "\"pref\""@,
        Kind::Fact => "\"fact\""@,
        Kind::Profile => "\"profile\""@,
        Kind::Instruction => "\"instruction\""@,
        Kind::Note => "\"note\""@,
    }
}

/// An optional string: `null` or a quoted string.
pub open spec fn enc_opt_str(o: Option<Seq<char>>) -> Seq<char> {
    match o {
        None => "null"@,
        Some(s) => enc_str(s),
    }
}

/// An optional number: `null` or decimal digits.
pub open spec fn enc_opt_u64(o: Option<u64>) -> Seq<char> {
    match o {
        None => "null"@,
        Some(n) => digits(n),
    }
}

/// The encoded hints object, with its four arrays.
pub open spec fn enc_hints(h: HintsView) -> Seq<char> {
    "{\"files\":"@ + enc_str_array(h.files) + ",\"crates\":"@ + enc_str_array(h.crates)
        + ",\"languages\":"@ + enc_str_array(h.languages) + ",\"commands\":"@ + enc_str_array(
        h.commands,
    ) + "}"@
}

/// The encoded counters object.
pub open spec fn enc_counters(c: CountersView) -> Seq<char> {
    "{\"seen_count\":"@ + digits(c.seen_count as u64) + ",\"used_count\":"@ + digits(
        c.used_count as u64,
    ) + ",\"last_used_at\":"@ + enc_opt_str(c.last_used_at) + "}"@
}

/// The encoded expiry: `null` or its object.
pub open spec fn enc_expiry(o: Option<ExpiryView>) -> Seq<char> {
    match o {
        None => "null"@,
        Some(e) => "{\"ttl_secs\":"@ + enc_opt_u64(e.ttl_secs) + ",\"review_after\":"@
            + enc_opt_str(e.review_after) + "}"@,
    }
}

/// The leading fields of an encoded item: id, timestamps, schema version.
pub open spec fn enc_item_a(v: ItemView) -> Seq<char> {
    "{\"id\":"@ + enc_str(v.id) + ",\"created_at\":"@ + enc_str(v.created_at)
        + ",\"updated_at\":"@ + enc_str(v.updated_at) + ",\"schema_version\":"@ + digits(
        v.schema_version as u64,
    )
}

/// The middle fields of an encoded item: source and the three enumerations.
pub open spec fn enc_item_b(v: ItemView) -> Seq<char> {
    ",\"source\":"@ + enc_str(v.source) + ",\"scope\":"@ + scope_json(v.scope)
        + ",\"status\":"@ + status_json(v.status) + ",\"kind\":"@ + kind_json(v.kind)
}

/// The trailing fields of an encoded item: content, tags, hints, counters,
/// expiry, and the closing brace.
pub open spec fn enc_item_c(v: ItemView) -> Seq<char> {
    ",\"content\":"@ + enc_str(v.content) + ",\"tags\":"@ + enc_str_array(v.tags)
        + ",\"relevance_hints\":"@ + enc_hints(v.relevance_hints) + ",\"counters\":"@
        + enc_counters(v.counters) + ",\"expiry\":"@ + enc_expiry(v.expiry) + "}"@
}

/// The canonical line encoding of an item, without the newline.
#[verifier::opaque]
pub open spec fn enc_item(v: ItemView) -> Seq<char> {
    enc_item_a(v) + enc_item_b(v) + enc_item_c(v)
}

/// Parses an optional string.
pub open spec fn p_opt_str(s: Seq<char>) -> Option<(Option<Seq<char>>, Seq<char>)> {
    if s.len() > 0 && s[0] == 'n' {
        match p_lit(s, "null"@) {
            Some(r) => Some((None, r)),
            None => None,
        }
    } else {
        match p_str(s) {
            Some((v, r)) => Some((Some(v), r)),
            None => None,
        }
    }
}

/// Parses an optional number.
pub open spec fn p_opt_u64(s: Seq<char>) -> Option<(Option<u64>, Seq<char>)> {
    if s.len() > 0 && s[0] == 'n' {
        match p_lit(s, "null"@) {
            Some(r) => Some((None, r)),
            None => None,
        }
    } else {
        match p_u64(s) {
            Some((n, r)) => Some((Some(n), r)),
            None => None,
        }
    }
}

/// Parses a quoted scope name.
pub open spec fn p_scope(s: Seq<char>) -> Option<(Scope, Seq<char>)> {
    match p_lit(s, "\"global\""@) {
        Some(r) => Some((Scope::Global, r)),
        None => match p_lit(s, "\"repo\""@) {
            Some(r) => Some((Scope::Repo, r)),
            None => match p_lit(s, "\"dir\""@) {
                Some(r) => Some((Scope::Dir, r)),
                None => None,
            },
        },
    }
}

/// Parses a quoted status name.
pub open spec fn p_status(s: Seq<char>) -> Option<(Status, Seq<char>)> {
    match p_lit(s, "\"active\""@) {
        Some(r) => Some((Status::Active, r)),
        None => match p_lit(s, "\"archived\""@) {
            Some(r) => Some((Status::Archived, r)),
            None => None,
        },
    }
}

/// Parses a quoted kind name.
pub open spec fn p_kind(s: Seq<char>) -> Option<(Kind, Seq<char>)> {
    match p_lit(s, "\"pref\""@) {
        Some(r) => Some((Kind::Pref, r)),
        None => match p_lit(s, "\"fact\""@) {
            Some(r) => Some((Kind::Fact, r)),
            None => match p_lit(s, "\"profile\""@) {
                Some(r) => Some((Kind::Profile, r)),
                None => match p_lit(s, "\"instruction\""@) {
                    Some(r) => Some((Kind::Instruction, r)),
                    None => match p_lit(s, "\"note\""@) {
                        Some(r) => Some((Kind::Note, r)),
                        None => None,
                    },
                },
            },
        },
    }
}

/// Parses the hints object.
pub open spec fn p_hints(s: Seq<char>) -> Option<(HintsView, Seq<char>)> {
    match p_lit(s, "{\"files\":"@) {
        None => None,
        Some(r1) => match p_str_array(r1) {
            None => None,
            Some((files, r2)) => match p_lit(r2, ",\"crates\":"@) {
                None => None,
                Some(r3) => match p_str_array(r3) {
                    None => None,
                    Some((crates, r4)) => match p_lit(r4, ",\"languages\":"@) {
                        None => None,
                        Some(r5) => match p_str_array(r5) {
                            None => None,
                            Some((languages, r6)) => match p_lit(r6, ",\"commands\":"@) {
                                None => None,
                                Some(r7) => match p_str_array(r7) {
                                    None => None,
                                    Some((commands, r8)) => match p_lit(r8, "}"@) {
                                        None => None,
                                        Some(r9) => Some(
                                            (HintsView { files, crates, languages, commands }, r9),
                                        ),
                                    },
                                },
                            },
                        },
                    },
                },
            },
        },
    }
}

/// Parses the counters object.
pub open spec fn p_counters(s: Seq<char>) -> Option<(CountersView, Seq<char>)> {
    match p_lit(s, "{\"seen_count\":"@) {
        None => None,
        Some(r1) => match p_u64(r1) {
            None => None,
            Some((seen, r2)) => if seen <= 0xFFFF_FFFFu64 {
                match p_lit(r2, ",\"used_count\":"@) {
                    None => None,
                    Some(r3) => match p_u64(r3) {
                        None => None,
                        Some((used, r4)) => if used <= 0xFFFF_FFFFu64 {
                            match p_lit(r4, ",\"last_used_at\":"@) {
                                None => None,
                                Some(r5) => match p_opt_str(r5) {
                                    None => None,
                                    Some((last, r6)) => match p_lit(r6, "}"@) {
                                        None => None,
                                        Some(r7) => Some(
                                            (
                                                CountersView {
                                                    seen_count: seen as u32,
                                                    used_count: used as u32,
                                                    last_used_at: last,
                                                },
                                                r7,
                                            ),
                                        ),
                                    },
                                },
                            }
                        } else {
                            None
                        },
                    },
                }
            } else {
                None
            },
        },
    }
}

/// Parses the expiry: `null` or its object.
pub open spec fn p_expiry(s: Seq<char>) -> Option<(Option<ExpiryView>, Seq<char>)> {
    if s.len() > 0 && s[0] == 'n' {
        match p_lit(s, "null"@) {
            Some(r) => Some((None, r)),
            None => None,
        }
    } else {
        match p_lit(s, "{\"ttl_secs\":"@) {
            None => None,
            Some(r1) => match p_opt_u64(r1) {
                None => None,
                Some((ttl, r2)) => match p_lit(r2, ",\"review_after\":"@) {
                    None => None,
                    Some(r3) => match p_opt_str(r3) {
                        None => None,
                        Some((review, r4)) => match p_lit(r4, "}"@) {
                            None => None,
                            Some(r5) => Some(
                                (Some(ExpiryView { ttl_secs: ttl, review_after: review }), r5),
                            ),
                        },
                    },
                },
            },
        }
    }
}

/// A character that may stand in an unquoted number value.
pub open spec fn num_char(c: char) -> bool {
    dig_val(c) is Some || c == '-' || c == '+' || c == '.' || c == 'e' || c == 'E'
}

/// The length of the leading run of number characters.
pub open spec fn num_len(s: Seq<char>) -> int
    decreases s.len(),
{
    if s.len() > 0 && num_char(s[0]) {
        1 + num_len(s.drop_first())
    } else {
        0
    }
}

/// Skips one encoded value at the front: a string, a number run, a literal
/// word, an object, or an array.  The fuel bounds the descent; a cursor's
/// worth of remaining input never runs out of it.
pub open spec fn p_skip_value(s: Seq<char>, fuel: nat) -> Option<Seq<char>>
    decreases fuel,
{
    if fuel == 0 {
        None
    } else if s.len() == 0 {
        None
    } else if s[0] == '"' {
        match p_str(s) {
            Some((v, r)) => Some(r),
            None => None,
        }
    } else if s[0] == '{' {
        p_skip_object(s.drop_first(), (fuel - 1) as nat)
    } else if s[0] == '[' {
        p_skip_array(s.drop_first(), (fuel - 1) as nat)
    } else if s[0] == 'n' {
        match p_lit(s, "null"@) {
            Some(r) => Some(r),
            None => None,
        }
    } else if s[0] == 't' {
        match p_lit(s, "true"@) {
            Some(r) => Some(r),
            None => None,
        }
    } else if s[0] == 'f' {
        match p_lit(s, "false"@) {
            Some(r) => Some(r),
            None => None,
        }
    } else if num_char(s[0]) {
        Some(s.skip(num_len(s)))
    } else {
        None
    }
}

/// Skips the rest of an object value after its opening brace.
pub open spec fn p_skip_object(s: Seq<char>, fuel: nat) -> Option<Seq<char>>
    decreases fuel,
{
    if fuel == 0 {
        None
    } else if s.len() > 0 && s[0] == '}' {
        Some(s.drop_first())
    } else {
        p_skip_members(s, (fuel - 1) as nat)
    }
}

/// Skips object members, a quoted name, a colon and a value each, up to
/// the closing brace.
pub open spec fn p_skip_members(s: Seq<char>, fuel: nat) -> Option<Seq<char>>
    decreases fuel,
{
    if fuel == 0 {
        None
    } else {
        match p_str(s) {
            None => None,
            Some((k, r1)) => if r1.len() > 0 && r1[0] == ':' {
                match p_skip_value(r1.drop_first(), (fuel - 1) as nat) {
                    None => None,
                    Some(r2) => if r2.len() > 0 && r2[0] == ',' {
                        p_skip_members(r2.drop_first(), (fuel - 1) as nat)
                    } else if r2.len() > 0 && r2[0] == '}' {
                        Some(r2.drop_first())
                    } else {
                        None
                    },
                }
            } else {
                None
            },
        }
    }
}

/// Skips the rest of an array value after its opening bracket.
pub open spec fn p_skip_array(s: Seq<char>, fuel: nat) -> Option<Seq<char>>
    decreases fuel,
{
    if fuel == 0 {
        None
    } else if s.len() > 0 && s[0] == ']' {
        Some(s.drop_first())
    } else {
        p_skip_elems(s, (fuel - 1) as nat)
    }
}

/// Skips array elements separated by commas up to the closing bracket.
pub open spec fn p_skip_elems(s: Seq<char>, fuel: nat) -> Option<Seq<char>>
    decreases fuel,
{
    if fuel == 0 {
        None
    } else {
        match p_skip_value(s, (fuel - 1) as nat) {
            None => None,
            Some(r) => if r.len() > 0 && r[0] == ',' {
                p_skip_elems(r.drop_first(), (fuel - 1) as nat)
            } else if r.len() > 0 && r[0] == ']' {
                Some(r.drop_first())
            } else {
                None
            },
        }
    }
}

/// The rest after the expected key, passing over any unknown fields that
/// stand before it: readers tolerate fields a future writer may add.  Each
/// passed-over field is a comma, a quoted name, a colon and a value.
pub open spec fn p_field(s: Seq<char>, key: Seq<char>) -> Option<Seq<char>>
    decreases s.len(),
{
    match p_lit(s, key) {
        Some(r) => Some(r),
        None => if s.len() > 0 && s[0] == ',' {
            match p_str(s.drop_first()) {
                None => None,
                Some((k, r1)) => if r1.len() > 0 && r1[0] == ':' {
                    match p_skip_value(r1.drop_first(), r1.len()) {
                        None => None,
                        Some(r2) => if r2.len() < s.len() {
                            p_field(r2, key)
                        } else {
                            None
                        },
                    }
                } else {
                    None
                },
            }
        } else {
            None
        },
    }
}

/// The rest after the expected first key of an object, passing over any
/// unknown fields that stand before it, each a quoted name, a colon, a
/// value and a comma.
pub open spec fn p_first_field(s: Seq<char>, key: Seq<char>) -> Option<Seq<char>>
    decreases s.len(),
{
    match p_lit(s, key) {
        Some(r) => Some(r),
        None => match p_str(s) {
            None => None,
            Some((k, r1)) => if r1.len() > 0 && r1[0] == ':' {
                match p_skip_value(r1.drop_first(), r1.len()) {
                    None => None,
                    Some(r2) => if r2.len() > 0 && r2[0] == ',' && r2.len() <= s.len() {
                        p_first_field(r2.drop_first(), key)
                    } else {
                        None
                    },
                }
            } else {
                None
            },
        },
    }
}

/// Parses one encoded item, yielding its value and the rest.  The known
/// fields stand in their canonical order; unknown fields anywhere among
/// them are passed over.
pub open spec fn p_item(s: Seq<char>) -> Option<(ItemView, Seq<char>)> {
    match p_lit(s, "{"@) {
        None => None,
        Some(r0) => match p_first_field(r0, "\"id\":"@) {
            None => None,
            Some(r1) => p_item_head(r1),
        },
    }
}

/// Continues an item parse from the id's value on.
pub open spec fn p_item_head(r1: Seq<char>) -> Option<(ItemView, Seq<char>)> {
    match p_str(r1) {
        None => None,
        Some((id, r2)) => match p_field(r2, ",\"created_at\":"@) {
            None => None,
            Some(r3) => match p_str(r3) {
                None => None,
                Some((created_at, r4)) => match p_field(r4, ",\"updated_at\":"@) {
                    None => None,
                    Some(r5) => match p_str(r5) {
                        None => None,
                        Some((updated_at, r6)) => match p_field(r6, ",\"schema_version\":"@) {
                            None => None,
                            Some(r7) => match p_u64(r7) {
                                None => None,
                                Some((sv, r8)) => if sv <= 0xFFFFu64 {
                                    p_item_rest1(id, created_at, updated_at, sv as u16, r8)
                                } else {
                                    None
                                },
                            },
                        },
                    },
                },
            },
        },
    }
}

/// Continues an item parse after the schema version.
pub open spec fn p_item_rest1(
    id: Seq<char>,
    created_at: Seq<char>,
    updated_at: Seq<char>,
    sv: u16,
    r8: Seq<char>,
) -> Option<(ItemView, Seq<char>)> {
    match p_field(r8, ",\"source\":"@) {
        None => None,
        Some(r9) => match p_str(r9) {
            None => None,
            Some((source, r10)) => match p_field(r10, ",\"scope\":"@) {
                None => None,
                Some(r11) => match p_scope(r11) {
                    None => None,
                    Some((scope, r12)) => match p_field(r12, ",\"status\":"@) {
                        None => None,
                        Some(r13) => match p_status(r13) {
                            None => None,
                            Some((status, r14)) => match p_field(r14, ",\"kind\":"@) {
                                None => None,
                                Some(r15) => match p_kind(r15) {
                                    None => None,
                                    Some((kind, r16)) => p_item_rest2(
                                        id,
                                        created_at,
                                        updated_at,
                                        sv,
                                        source,
                                        scope,
                                        status,
                                        kind,
                                        r16,
                                    ),
                                },
                            },
                        },
                    },
                },
            },
        },
    }
}

/// Continues an item parse after the kind.
pub open spec fn p_item_rest2(
    id: Seq<char>,
    created_at: Seq<char>,
    updated_at: Seq<char>,
    sv: u16,
    source: Seq<char>,
    scope: Scope,
    status: Status,
    kind: Kind,
    r16: Seq<char>,
) -> Option<(ItemView, Seq<char>)> {
    match p_field(r16, ",\"content\":"@) {
        None => None,
        Some(r17) => match p_str(r17) {
            None => None,
            Some((content, r18)) => match p_field(r18, ",\"tags\":"@) {
                None => None,
                Some(r19) => match p_str_array(r19) {
                    None => None,
                    Some((tags, r20)) => match p_field(r20, ",\"relevance_hints\":"@) {
                        None => None,
                        Some(r21) => match p_hints(r21) {
                            None => None,
                            Some((hints, r22)) => match p_field(r22, ",\"counters\":"@) {
                                None => None,
                                Some(r23) => match p_counters(r23) {
                                    None => None,
                                    Some((counters, r24)) => match p_field(r24, ",\"expiry\":"@) {
                                        None => None,
                                        Some(r25) => match p_expiry(r25) {
                                            None => None,
                                            Some((expiry, r26)) => match p_field(r26, "}"@) {
                                                None => None,
                                                Some(r27) => Some(
                                                    (
                                                        ItemView {
                                                            id,
                                                            created_at,
                                                            updated_at,
                                                            schema_version: sv,
                                                            source,
                                                            scope,
                                                            status,
                                                            kind,
                                                            content,
                                                            tags,
                                                            relevance_hints: hints,
                                                            counters,
                                                            expiry,
                                                        },
                                                        r27,
                                                    ),
                                                ),
                                            },
                                        },
                                    },
                                },
                            },
                        },
                    },
                },
            },
        },
    }
}

/// Parses a whole line as one item; nothing may follow.
#[verifier::opaque]
pub open spec fn p_item_line(s: Seq<char>) -> Option<ItemView> {
    match p_item(s) {
        Some((v, rest)) => if rest.len() == 0 {
            Some(v)
        } else {
            None
        },
        None => None,
    }
}


/// Parses an optional string at the cursor.
pub fn parse_opt_str_at(s: &Vec<char>, i: usize) -> (r: Option<(Option<String>, usize)>)
    requires
        i <= s@.len(),
    ensures
        match r {
            Some((o, j)) => i <= j <= s@.len() && p_opt_str(s@.skip(i as int)) == Some(
                (o.deep_view(), s@.skip(j as int)),
            ),
            None => p_opt_str(s@.skip(i as int)) is None,
        },
{
    proof {
        if i < s@.len() {
            assert(s@.skip(i as int)[0] == s@[i as int]);
        }
    }
    if i < s.len() && s[i] == 'n' {
        match expect_lit(s, i, "null") {
            Some(j) => Some((None, j)),
            None => None,
        }
    } else {
        match parse_string_at(s, i) {
            Some((t, j)) => Some((Some(chars_to_string(&t)), j)),
            None => None,
        }
    }
}

/// Parses an optional number at the cursor.
pub fn parse_opt_u64_at(s: &Vec<char>, i: usize) -> (r: Option<(Option<u64>, usize)>)
    requires
        i <= s@.len(),
    ensures
        match r {
            Some((o, j)) => i <= j <= s@.len() && p_opt_u64(s@.skip(i as int)) == Some(
                (o, s@.skip(j as int)),
            ),
            None => p_opt_u64(s@.skip(i as int)) is None,
        },
{
    proof {
        if i < s@.len() {
            assert(s@.skip(i as int)[0] == s@[i as int]);
        }
    }
    if i < s.len() && s[i] == 'n' {
        match expect_lit(s, i, "null") {
            Some(j) => Some((None, j)),
            None => None,
        }
    } else {
        match parse_u64_at(s, i) {
            Some((n, j)) => Some((Some(n), j)),
            None => None,
        }
    }
}

/// Parses a quoted scope name at the cursor.
pub fn parse_scope_at(s: &Vec<char>, i: usize) -> (r: Option<(Scope, usize)>)
    requires
        i <= s@.len(),
    ensures
        match r {
            Some((v, j)) => i <= j <= s@.len() && p_scope(s@.skip(i as int)) == Some(
                (v, s@.skip(j as int)),
            ),
            None => p_scope(s@.skip(i as int)) is None,
        },
{
    match expect_lit(s, i, "\"global\"") {
        Some(j) => {
            return Some((Scope::Global, j));
        },
        None => {},
    }
    match expect_lit(s, i, "\"repo\"") {
        Some(j) => {
            return Some((Scope::Repo, j));
        },
        None => {},
    }
    match expect_lit(s, i, "\"dir\"") {
        Some(j) => {
            return Some((Scope::Dir, j));
        },
        None => {},
    }
    None
}

/// Parses a quoted status name at the cursor.
pub fn parse_status_at(s: &Vec<char>, i: usize) -> (r: Option<(Status, usize)>)
    requires
        i <= s@.len(),
    ensures
        match r {
            Some((v, j)) => i <= j <= s@.len() && p_status(s@.skip(i as int)) == Some(
                (v, s@.skip(j as int)),
            ),
            None => p_status(s@.skip(i as int)) is None,
        },
{
    match expect_lit(s, i, "\"active\"") {
        Some(j) => {
            return Some((Status::Active, j));
        },
        None => {},
    }
    match expect_lit(s, i, "\"archived\"") {
        Some(j) => {
            return Some((Status::Archived, j));
        },
        None => {},
    }
    None
}

/// Parses a quoted kind name at the cursor.
pub fn parse_kind_at(s: &Vec<char>, i: usize) -> (r: Option<(Kind, usize)>)
    requires
        i <= s@.len(),
    ensures
        match r {
            Some((v, j)) => i <= j <= s@.len() && p_kind(s@.skip(i as int)) == Some(
                (v, s@.skip(j as int)),
            ),
            None => p_kind(s@.skip(i as int)) is None,
        },
{
    match expect_lit(s, i, "\"pref\"") {
        Some(j) => {
            return Some((Kind::Pref, j));
        },
        None => {},
    }
    match expect_lit(s, i, "\"fact\"") {
        Some(j) => {
            return Some((Kind::Fact, j));
        },
        None => {},
    }
    match expect_lit(s, i, "\"profile\"") {
        Some(j) => {
            return Some((Kind::Profile, j));
        },
        None => {},
    }
    match expect_lit(s, i, "\"instruction\"") {
        Some(j) => {
            return Some((Kind::Instruction, j));
        },
        None => {},
    }
    match expect_lit(s, i, "\"note\"") {
        Some(j) => {
            return Some((Kind::Note, j));
        },
        None => {},
    }
    None
}

/// Parses the hints object at the cursor.
pub fn parse_hints_at(s: &Vec<char>, i: usize) -> (r: Option<(RelevanceHints, usize)>)
    requires
        i <= s@.len(),
    ensures
        match r {
            Some((h, j)) => i <= j <= s@.len() && p_hints(s@.skip(i as int)) == Some(
                (h@, s@.skip(j as int)),
            ),
            None => p_hints(s@.skip(i as int)) is None,
        },
{
    let j1 = match expect_lit(s, i, "{\"files\":") {
        Some(j) => j,
        None => {
            return None;
        },
    };
    let (files, j2) = match parse_str_array_at(s, j1) {
        Some(x) => x,
        None => {
            return None;
        },
    };
    let j3 = match expect_lit(s, j2, ",\"crates\":") {
        Some(j) => j,
        None => {
            return None;
        },
    };
    let (crates, j4) = match parse_str_array_at(s, j3) {
        Some(x) => x,
        None => {
            return None;
        },
    };
    let j5 = match expect_lit(s, j4, ",\"languages\":") {
        Some(j) => j,
        None => {
            return None;
        },
    };
    let (languages, j6) = match parse_str_array_at(s, j5) {
        Some(x) => x,
        None => {
            return None;
        },
    };
    let j7 = match expect_lit(s, j6, ",\"commands\":") {
        Some(j) => j,
        None => {
            return None;
        },
    };
    let (commands, j8) = match parse_str_array_at(s, j7) {
        Some(x) => x,
        None => {
            return None;
        },
    };
    let j9 = match expect_lit(s, j8, "}") {
        Some(j) => j,
        None => {
            return None;
        },
    };
    let h = RelevanceHints { files, crates, languages, commands };
    proof {
        assert(h@ =~= HintsView {
            files: h.files.deep_view(),
            crates: h.crates.deep_view(),
            languages: h.languages.deep_view(),
            commands: h.commands.deep_view(),
        });
    }
    Some((h, j9))
}

/// Parses the counters object at the cursor.
pub fn parse_counters_at(s: &Vec<char>, i: usize) -> (r: Option<(Counters, usize)>)
    requires
        i <= s@.len(),
    ensures
        match r {
            Some((c, j)) => i <= j <= s@.len() && p_counters(s@.skip(i as int)) == Some(
                (c@, s@.skip(j as int)),
            ),
            None => p_counters(s@.skip(i as int)) is None,
        },
{
    let j1 = match expect_lit(s, i, "{\"seen_count\":") {
        Some(j) => j,
        None => {
            return None;
        },
    };
    let (seen, j2) = match parse_u64_at(s, j1) {
        Some(x) => x,
        None => {
            return None;
        },
    };
    if seen > 0xFFFF_FFFFu64 {
        return None;
    }
    let j3 = match expect_lit(s, j2, ",\"used_count\":") {
        Some(j) => j,
        None => {
            return None;
        },
    };
    let (used, j4) = match parse_u64_at(s, j3) {
        Some(x) => x,
        None => {
            return None;
        },
    };
    if used > 0xFFFF_FFFFu64 {
        return None;
    }
    let j5 = match expect_lit(s, j4, ",\"last_used_at\":") {
        Some(j) => j,
        None => {
            return None;
        },
    };
    let (last, j6) = match parse_opt_str_at(s, j5) {
        Some(x) => x,
        None => {
            return None;
        },
    };
    let j7 = match expect_lit(s, j6, "}") {
        Some(j) => j,
        None => {
            return None;
        },
    };
    let c = Counters { seen_count: seen as u32, used_count: used as u32, last_used_at: last };
    Some((c, j7))
}

/// Parses the expiry at the cursor.
pub fn parse_expiry_at(s: &Vec<char>, i: usize) -> (r: Option<(Option<Expiry>, usize)>)
    requires
        i <= s@.len(),
    ensures
        match r {
            Some((o, j)) => i <= j <= s@.len() && p_expiry(s@.skip(i as int)) == Some(
                (
                    match o {
                        Some(e) => Some(e@),
                        None => None,
                    },
                    s@.skip(j as int),
                ),
            ),
            None => p_expiry(s@.skip(i as int)) is None,
        },
{
    proof {
        if i < s@.len() {
            assert(s@.skip(i as int)[0] == s@[i as int]);
        }
    }
    if i < s.len() && s[i] == 'n' {
        match expect_lit(s, i, "null") {
            Some(j) => Some((None, j)),
            None => None,
        }
    } else {
        let j1 = match expect_lit(s, i, "{\"ttl_secs\":") {
            Some(j) => j,
            None => {
                return None;
            },
        };
        let (ttl, j2) = match parse_opt_u64_at(s, j1) {
            Some(x) => x,
            None => {
                return None;
            },
        };
        let j3 = match expect_lit(s, j2, ",\"review_after\":") {
            Some(j) => j,
            None => {
                return None;
            },
        };
        let (review, j4) = match parse_opt_str_at(s, j3) {
            Some(x) => x,
            None => {
                return None;
            },
        };
        let j5 = match expect_lit(s, j4, "}") {
            Some(j) => j,
            None => {
                return None;
            },
        };
        Some((Some(Expiry { ttl_secs: ttl, review_after: review }), j5))
    }
}

/// Reads whether a character may stand in a number value.
fn num_char_exec(c: char) -> (r: bool)
    ensures
        r == num_char(c),
{
    match crate::codec::dig_val_exec(c) {
        Some(_) => true,
        None => c == '-' || c == '+' || c == '.' || c == 'e' || c == 'E',
    }
}

/// Skips the run of number characters at the cursor.
fn skip_num_at(s: &Vec<char>, i: usize) -> (r: usize)
    requires
        i <= s@.len(),
    ensures
        i <= r <= s@.len(),
        r - i == num_len(s@.skip(i as int)),
{
    let n = s.len();
    let mut j: usize = i;
    while j < n && num_char_exec(s[j])
        invariant
            i <= j <= n,
            n == s@.len(),
            num_len(s@.skip(i as int)) == (j - i) + num_len(s@.skip(j as int)),
        decreases n - j,
    {
        proof {
            assert(s@.skip(j as int)[0] == s@[j as int]);
            assert(s@.skip(j as int).drop_first() =~= s@.skip((j + 1) as int));
        }
        j = j + 1;
    }
    proof {
        if j < n {
            assert(s@.skip(j as int)[0] == s@[j as int]);
        } else {
            assert(s@.skip(j as int).len() == 0);
        }
        assert(num_len(s@.skip(j as int)) == 0);
    }
    j
}

/// Skips one encoded value at the cursor, with the fuel the specification
/// takes.
fn skip_value_at(s: &Vec<char>, i: usize, fuel: usize) -> (r: Option<usize>)
    requires
        i <= s@.len(),
    ensures
        match r {
            Some(j) => i <= j <= s@.len() && p_skip_value(s@.skip(i as int), fuel as nat) == Some(
                s@.skip(j as int),
            ),
            None => p_skip_value(s@.skip(i as int), fuel as nat) is None,
        },
    decreases fuel,
{
    if fuel == 0 {
        return None;
    }
    if i >= s.len() {
        return None;
    }
    proof {
        assert(s@.skip(i as int)[0] == s@[i as int]);
        assert(s@.skip(i as int).drop_first() =~= s@.skip((i + 1) as int));
    }
    let c = s[i];
    if c == '"' {
        match parse_string_at(s, i) {
            Some((_t, j)) => Some(j),
            None => None,
        }
    } else if c == '{' {
        skip_object_at(s, i + 1, fuel - 1)
    } else if c == '[' {
        skip_array_at(s, i + 1, fuel - 1)
    } else if c == 'n' {
        match expect_lit(s, i, "null") {
            Some(j) => Some(j),
            None => None,
        }
    } else if c == 't' {
        match expect_lit(s, i, "true") {
            Some(j) => Some(j),
            None => None,
        }
    } else if c == 'f' {
        match expect_lit(s, i, "false") {
            Some(j) => Some(j),
            None => None,
        }
    } else if num_char_exec(c) {
        let j = skip_num_at(s, i);
        proof {
            assert(s@.skip(i as int).skip((j - i) as int) =~= s@.skip(j as int));
        }
        Some(j)
    } else {
        None
    }
}

/// Skips the rest of an object value at the cursor, after its brace.
fn skip_object_at(s: &Vec<char>, i: usize, fuel: usize) -> (r: Option<usize>)
    requires
        i <= s@.len(),
    ensures
        match r {
            Some(j) => i <= j <= s@.len() && p_skip_object(s@.skip(i as int), fuel as nat) == Some(
                s@.skip(j as int),
            ),
            None => p_skip_object(s@.skip(i as int), fuel as nat) is None,
        },
    decreases fuel,
{
    if fuel == 0 {
        return None;
    }
    proof {
        if i < s@.len() {
            assert(s@.skip(i as int)[0] == s@[i as int]);
            assert(s@.skip(i as int).drop_first() =~= s@.skip((i + 1) as int));
        }
    }
    if i < s.len() && s[i] == '}' {
        Some(i + 1)
    } else {
        skip_members_at(s, i, fuel - 1)
    }
}

/// Skips object members at the cursor up to the closing brace.
fn skip_members_at(s: &Vec<char>, i: usize, fuel: usize) -> (r: Option<usize>)
    requires
        i <= s@.len(),
    ensures
        match r {
            Some(j) => i <= j <= s@.len() && p_skip_members(s@.skip(i as int), fuel as nat)
                == Some(s@.skip(j as int)),
            None => p_skip_members(s@.skip(i as int), fuel as nat) is None,
        },
    decreases fuel,
{
    if fuel == 0 {
        return None;
    }
    let j1 = match parse_string_at(s, i) {
        Some((_k, j)) => j,
        None => {
            return None;
        },
    };
    proof {
        if j1 < s@.len() {
            assert(s@.skip(j1 as int)[0] == s@[j1 as int]);
            assert(s@.skip(j1 as int).drop_first() =~= s@.skip((j1 + 1) as int));
        }
    }
    if j1 < s.len() && s[j1] == ':' {
        match skip_value_at(s, j1 + 1, fuel - 1) {
            None => None,
            Some(j2) => {
                proof {
                    if j2 < s@.len() {
                        assert(s@.skip(j2 as int)[0] == s@[j2 as int]);
                        assert(s@.skip(j2 as int).drop_first() =~= s@.skip((j2 + 1) as int));
                    }
                }
                if j2 < s.len() && s[j2] == ',' {
                    skip_members_at(s, j2 + 1, fuel - 1)
                } else if j2 < s.len() && s[j2] == '}' {
                    Some(j2 + 1)
                } else {
                    None
                }
            },
        }
    } else {
        None
    }
}

/// Skips the rest of an array value at the cursor, after its bracket.
fn skip_array_at(s: &Vec<char>, i: usize, fuel: usize) -> (r: Option<usize>)
    requires
        i <= s@.len(),
    ensures
        match r {
            Some(j) => i <= j <= s@.len() && p_skip_array(s@.skip(i as int), fuel as nat) == Some(
                s@.skip(j as int),
            ),
            None => p_skip_array(s@.skip(i as int), fuel as nat) is None,
        },
    decreases fuel,
{
    if fuel == 0 {
        return None;
    }
    proof {
        if i < s@.len() {
            assert(s@.skip(i as int)[0] == s@[i as int]);
            assert(s@.skip(i as int).drop_first() =~= s@.skip((i + 1) as int));
        }
    }
    if i < s.len() && s[i] == ']' {
        Some(i + 1)
    } else {
        skip_elems_at(s, i, fuel - 1)
    }
}

/// Skips array elements at the cursor up to the closing bracket.
fn skip_elems_at(s: &Vec<char>, i: usize, fuel: usize) -> (r: Option<usize>)
    requires
        i <= s@.len(),
    ensures
        match r {
            Some(j) => i <= j <= s@.len() && p_skip_elems(s@.skip(i as int), fuel as nat) == Some(
                s@.skip(j as int),
            ),
            None => p_skip_elems(s@.skip(i as int), fuel as nat) is None,
        },
    decreases fuel,
{
    if fuel == 0 {
        return None;
    }
    match skip_value_at(s, i, fuel - 1) {
        None => None,
        Some(j) => {
            proof {
                if j < s@.len() {
                    assert(s@.skip(j as int)[0] == s@[j as int]);
                    assert(s@.skip(j as int).drop_first() =~= s@.skip((j + 1) as int));
                }
            }
            if j < s.len() && s[j] == ',' {
                skip_elems_at(s, j + 1, fuel - 1)
            } else if j < s.len() && s[j] == ']' {
                Some(j + 1)
            } else {
                None
            }
        },
    }
}

/// Finds the expected key at the cursor, passing over unknown fields.
fn field_at(s: &Vec<char>, i: usize, key: &str) -> (r: Option<usize>)
    requires
        i <= s@.len(),
    ensures
        match r {
            Some(j) => i <= j <= s@.len() && p_field(s@.skip(i as int), key@) == Some(
                s@.skip(j as int),
            ),
            None => p_field(s@.skip(i as int), key@) is None,
        },
    decreases s@.len() - i,
{
    match expect_lit(s, i, key) {
        Some(j) => Some(j),
        None => {
            proof {
                if i < s@.len() {
                    assert(s@.skip(i as int)[0] == s@[i as int]);
                    assert(s@.skip(i as int).drop_first() =~= s@.skip((i + 1) as int));
                }
            }
            if i < s.len() && s[i] == ',' {
                match parse_string_at(s, i + 1) {
                    None => None,
                    Some((_k, j1)) => {
                        proof {
                            if j1 < s@.len() {
                                assert(s@.skip(j1 as int)[0] == s@[j1 as int]);
                                assert(s@.skip(j1 as int).drop_first() =~= s@.skip(
                                    (j1 + 1) as int,
                                ));
                            }
                        }
                        if j1 < s.len() && s[j1] == ':' {
                            match skip_value_at(s, j1 + 1, s.len() - j1) {
                                None => None,
                                Some(j2) => if j2 > i {
                                    field_at(s, j2, key)
                                } else {
                                    None
                                },
                            }
                        } else {
                            None
                        }
                    },
                }
            } else {
                None
            }
        },
    }
}

/// Finds the expected first key of an object at the cursor, passing over
/// unknown fields.
fn first_field_at(s: &Vec<char>, i: usize, key: &str) -> (r: Option<usize>)
    requires
        i <= s@.len(),
    ensures
        match r {
            Some(j) => i <= j <= s@.len() && p_first_field(s@.skip(i as int), key@) == Some(
                s@.skip(j as int),
            ),
            None => p_first_field(s@.skip(i as int), key@) is None,
        },
    decreases s@.len() - i,
{
    match expect_lit(s, i, key) {
        Some(j) => Some(j),
        None => match parse_string_at(s, i) {
            None => None,
            Some((_k, j1)) => {
                proof {
                    if j1 < s@.len() {
                        assert(s@.skip(j1 as int)[0] == s@[j1 as int]);
                        assert(s@.skip(j1 as int).drop_first() =~= s@.skip((j1 + 1) as int));
                    }
                }
                if j1 < s.len() && s[j1] == ':' {
                    match skip_value_at(s, j1 + 1, s.len() - j1) {
                        None => None,
                        Some(j2) => {
                            proof {
                                if j2 < s@.len() {
                                    assert(s@.skip(j2 as int)[0] == s@[j2 as int]);
                                    assert(s@.skip(j2 as int).drop_first() =~= s@.skip(
                                        (j2 + 1) as int,
                                    ));
                                }
                            }
                            if j2 < s.len() && s[j2] == ',' && j2 >= i {
                                first_field_at(s, j2 + 1, key)
                            } else {
                                None
                            }
                        },
                    }
                } else {
                    None
                }
            },
        },
    }
}

/// Parses one encoded item at the cursor.
#[verifier::rlimit(100)]
pub fn parse_item_at(s: &Vec<char>, i: usize) -> (r: Option<(MemoryItem, usize)>)
    requires
        i <= s@.len(),
    ensures
        match r {
            Some((item, j)) => i <= j <= s@.len() && p_item(s@.skip(i as int)) == Some(
                (item@, s@.skip(j as int)),
            ),
            None => p_item(s@.skip(i as int)) is None,
        },
{
    let j0 = match expect_lit(s, i, "{") {
        Some(j) => j,
        None => {
            return None;
        },
    };
    let j1 = match first_field_at(s, j0, "\"id\":") {
        Some(j) => j,
        None => {
            return None;
        },
    };
    let (id, j2) = match parse_string_at(s, j1) {
        Some(x) => x,
        None => {
            return None;
        },
    };
    let j3 = match field_at(s, j2, ",\"created_at\":") {
        Some(j) => j,
        None => {
            return None;
        },
    };
    let (created_at, j4) = match parse_string_at(s, j3) {
        Some(x) => x,
        None => {
            return None;
        },
    };
    let j5 = match field_at(s, j4, ",\"updated_at\":") {
        Some(j) => j,
        None => {
            return None;
        },
    };
    let (updated_at, j6) = match parse_string_at(s, j5) {
        Some(x) => x,
        None => {
            return None;
        },
    };
    let j7 = match field_at(s, j6, ",\"schema_version\":") {
        Some(j) => j,
        None => {
            return None;
        },
    };
    let (sv, j8) = match parse_u64_at(s, j7) {
        Some(x) => x,
        None => {
            return None;
        },
    };
    if sv > 0xFFFFu64 {
        return None;
    }
    let j9 = match field_at(s, j8, ",\"source\":") {
        Some(j) => j,
        None => {
            return None;
        },
    };
    let (source, j10) = match parse_string_at(s, j9) {
        Some(x) => x,
        None => {
            return None;
        },
    };
    let j11 = match field_at(s, j10, ",\"scope\":") {
        Some(j) => j,
        None => {
            return None;
        },
    };
    let (scope, j12) = match parse_scope_at(s, j11) {
        Some(x) => x,
        None => {
            return None;
        },
    };
    let j13 = match field_at(s, j12, ",\"status\":") {
        Some(j) => j,
        None => {
            return None;
        },
    };
    let (status, j14) = match parse_status_at(s, j13) {
        Some(x) => x,
        None => {
            return None;
        },
    };
    let j15 = match field_at(s, j14, ",\"kind\":") {
        Some(j) => j,
        None => {
            return None;
        },
    };
    let (kind, j16) = match parse_kind_at(s, j15) {
        Some(x) => x,
        None => {
            return None;
        },
    };
    let j17 = match field_at(s, j16, ",\"content\":") {
        Some(j) => j,
        None => {
            return None;
        },
    };
    let (content, j18) = match parse_string_at(s, j17) {
        Some(x) => x,
        None => {
            return None;
        },
    };
    let j19 = match field_at(s, j18, ",\"tags\":") {
        Some(j) => j,
        None => {
            return None;
        },
    };
    let (tags, j20) = match parse_str_array_at(s, j19) {
        Some(x) => x,
        None => {
            return None;
        },
    };
    let j21 = match field_at(s, j20, ",\"relevance_hints\":") {
        Some(j) => j,
        None => {
            return None;
        },
    };
    let (hints, j22) = match parse_hints_at(s, j21) {
        Some(x) => x,
        None => {
            return None;
        },
    };
    let j23 = match field_at(s, j22, ",\"counters\":") {
        Some(j) => j,
        None => {
            return None;
        },
    };
    let (counters, j24) = match parse_counters_at(s, j23) {
        Some(x) => x,
        None => {
            return None;
        },
    };
    let j25 = match field_at(s, j24, ",\"expiry\":") {
        Some(j) => j,
        None => {
            return None;
        },
    };
    let (expiry, j26) = match parse_expiry_at(s, j25) {
        Some(x) => x,
        None => {
            return None;
        },
    };
    let j27 = match field_at(s, j26, "}") {
        Some(j) => j,
        None => {
            return None;
        },
    };
    let item = MemoryItem {
        id: chars_to_string(&id),
        created_at: chars_to_string(&created_at),
        updated_at: chars_to_string(&updated_at),
        schema_version: sv as u16,
        source: chars_to_string(&source),
        scope,
        status,
        kind,
        content: chars_to_string(&content),
        tags,
        relevance_hints: hints,
        counters,
        expiry,
    };
    proof {
        assert(p_item(s@.skip(i as int)) == Some((item@, s@.skip(j27 as int))));
    }
    Some((item, j27))
}

/// Parses a whole line as one item.
pub fn parse_item_line(line: &Vec<char>) -> (r: Option<MemoryItem>)
    ensures
        match r {
            Some(item) => p_item_line(line@) == Some(item@),
            None => p_item_line(line@) is None,
        },
{
    proof {
        reveal(p_item_line);
        assert(line@.skip(0) =~= line@);
    }
    match parse_item_at(line, 0) {
        None => None,
        Some((item, j)) => if j == line.len() {
            proof {
                assert(line@.skip(j as int).len() == 0);
            }
            Some(item)
        } else {
            proof {
                assert(line@.skip(j as int).len() > 0);
            }
            None
        },
    }
}

/// Appends the leading fields of an item.
fn push_item_a(out: &mut Vec<char>, item: &MemoryItem)
    ensures
        final(out)@ == old(out)@ + enc_item_a(item@),
{
    crate::text::push_str_chars(out, "{\"id\":");
    let cs = crate::text::str_to_chars(item.id.as_str());
    push_quoted(out, &cs);
    crate::text::push_str_chars(out, ",\"created_at\":");
    let cs = crate::text::str_to_chars(item.created_at.as_str());
    push_quoted(out, &cs);
    crate::text::push_str_chars(out, ",\"updated_at\":");
    let cs = crate::text::str_to_chars(item.updated_at.as_str());
    push_quoted(out, &cs);
    crate::text::push_str_chars(out, ",\"schema_version\":");
    push_u64(out, item.schema_version as u64);
    proof {
        assert(out@ =~= old(out)@ + enc_item_a(item@));
    }
}

/// Appends the middle fields of an item.
fn push_item_b(out: &mut Vec<char>, item: &MemoryItem)
    ensures
        final(out)@ == old(out)@ + enc_item_b(item@),
{
    crate::text::push_str_chars(out, ",\"source\":");
    let cs = crate::text::str_to_chars(item.source.as_str());
    push_quoted(out, &cs);
    crate::text::push_str_chars(out, ",\"scope\":");
    match &item.scope {
        Scope::Global => crate::text::push_str_chars(out, "\"global\""),
        Scope::Repo => crate::text::push_str_chars(out, "\"repo\""),
        Scope::Dir => crate::text::push_str_chars(out, "\"dir\""),
    }
    crate::text::push_str_chars(out, ",\"status\":");
    match &item.status {
        Status::Active => crate::text::push_str_chars(out, "\"active\""),
        Status::Archived => crate::text::push_str_chars(out, "\"archived\""),
    }
    crate::text::push_str_chars(out, ",\"kind\":");
    match &item.kind {
        Kind::Pref => crate::text::push_str_chars(out, "\"pref\""),
        Kind::Fact => crate::text::push_str_chars(out, "\"fact\""),
        Kind::Profile => crate::text::push_str_chars(out, "\"profile\""),
        Kind::Instruction => crate::text::push_str_chars(out, "\"instruction\""),
        Kind::Note => crate::text::push_str_chars(out, "\"note\""),
    }
    proof {
        assert(out@ =~= old(out)@ + enc_item_b(item@));
    }
}

/// Appends the trailing fields of an item.
#[verifier::rlimit(100)]
fn push_item_c(out: &mut Vec<char>, item: &MemoryItem)
    ensures
        final(out)@ == old(out)@ + enc_item_c(item@),
{
    crate::text::push_str_chars(out, ",\"content\":");
    let cs = crate::text::str_to_chars(item.content.as_str());
    push_quoted(out, &cs);
    crate::text::push_str_chars(out, ",\"tags\":");
    push_str_array(out, &item.tags);
    crate::text::push_str_chars(out, ",\"relevance_hints\":");
    push_hints(out, &item.relevance_hints);
    crate::text::push_str_chars(out, ",\"counters\":");
    push_counters(out, &item.counters);
    crate::text::push_str_chars(out, ",\"expiry\":");
    push_expiry(out, &item.expiry);
    crate::text::push_str_chars(out, "}");
    proof {
        assert(out@ =~= old(out)@ + enc_item_c(item@));
    }
}

/// Writes the canonical line encoding of an item, without the newline.
pub fn encode_item(item: &MemoryItem) -> (r: Vec<char>)
    ensures
        r@ == enc_item(item@),
{
    let mut out: Vec<char> = Vec::new();
    push_item_a(&mut out, item);
    push_item_b(&mut out, item);
    push_item_c(&mut out, item);
    proof {
        reveal(enc_item);
        assert(out@ =~= enc_item(item@));
    }
    out
}

/// Appends an optional string: `null` or a quoted string.
fn push_opt_str(out: &mut Vec<char>, o: &Option<String>)
    ensures
        final(out)@ == old(out)@ + enc_opt_str(o.deep_view()),
{
    match o {
        None => crate::text::push_str_chars(out, "null"),
        Some(v) => {
            let cs = crate::text::str_to_chars(v.as_str());
            push_quoted(out, &cs);
        },
    }
}

/// Appends the hints object.
pub fn push_hints(out: &mut Vec<char>, h: &RelevanceHints)
    ensures
        final(out)@ == old(out)@ + enc_hints(h@),
{
    crate::text::push_str_chars(out, "{\"files\":");
    push_str_array(out, &h.files);
    crate::text::push_str_chars(out, ",\"crates\":");
    push_str_array(out, &h.crates);
    crate::text::push_str_chars(out, ",\"languages\":");
    push_str_array(out, &h.languages);
    crate::text::push_str_chars(out, ",\"commands\":");
    push_str_array(out, &h.commands);
    crate::text::push_str_chars(out, "}");
    proof {
        assert(out@ =~= old(out)@ + enc_hints(h@));
    }
}

/// Appends the counters object.
pub fn push_counters(out: &mut Vec<char>, c: &Counters)
    ensures
        final(out)@ == old(out)@ + enc_counters(c@),
{
    crate::text::push_str_chars(out, "{\"seen_count\":");
    push_u64(out, c.seen_count as u64);
    crate::text::push_str_chars(out, ",\"used_count\":");
    push_u64(out, c.used_count as u64);
    crate::text::push_str_chars(out, ",\"last_used_at\":");
    push_opt_str(out, &c.last_used_at);
    crate::text::push_str_chars(out, "}");
    proof {
        assert(out@ =~= old(out)@ + enc_counters(c@));
    }
}

/// Appends the expiry: `null` or its object.
pub fn push_expiry(out: &mut Vec<char>, o: &Option<Expiry>)
    ensures
        final(out)@ == old(out)@ + enc_expiry(
            match o {
                Some(e) => Some(e@),
                None => None,
            },
        ),
{
    match o {
        None => crate::text::push_str_chars(out, "null"),
        Some(e) => {
            crate::text::push_str_chars(out, "{\"ttl_secs\":");
            match &e.ttl_secs {
                None => crate::text::push_str_chars(out, "null"),
                Some(n) => push_u64(out, *n),
            }
            crate::text::push_str_chars(out, ",\"review_after\":");
            push_opt_str(out, &e.review_after);
            crate::text::push_str_chars(out, "}");
            proof {
                assert(out@ =~= old(out)@ + enc_expiry(Some(e@)));
            }
        },
    }
}

} // verus!

verus! {

/// Two literals that differ at an index never both parse off one front.
proof fn lemma_lit_differs(a: Seq<char>, b: Seq<char>, rest: Seq<char>, k: int)
    requires
        0 <= k < b.len(),
        k < a.len(),
        a[k] != b[k],
    ensures
        p_lit(a + rest, b) is None,
{
    let s = a + rest;
    if b.len() <= s.len() {
        assert(s.take(b.len() as int)[k] == s[k]);
        assert(s[k] == a[k]);
        assert(s.take(b.len() as int) != b);
    }
}

/// The optional-string parser undoes the optional-string encoder.
pub proof fn lemma_p_opt_str_rt(o: Option<Seq<char>>, rest: Seq<char>)
    ensures
        p_opt_str(enc_opt_str(o) + rest) == Some((o, rest)),
{
    reveal_strlit("null");
    let s = enc_opt_str(o) + rest;
    match o {
        None => {
            assert(s[0] == 'n');
            lemma_p_lit_rt("null"@, rest);
        },
        Some(v) => {
            assert(s[0] == '"');
            lemma_p_str_rt(v, rest);
        },
    }
}

/// The optional-number parser undoes the optional-number encoder.
pub proof fn lemma_p_opt_u64_rt(o: Option<u64>, rest: Seq<char>)
    requires
        rest.len() == 0 || dig_val(rest[0]) is None,
    ensures
        p_opt_u64(enc_opt_u64(o) + rest) == Some((o, rest)),
{
    reveal_strlit("null");
    let s = enc_opt_u64(o) + rest;
    match o {
        None => {
            assert(s[0] == 'n');
            lemma_p_lit_rt("null"@, rest);
        },
        Some(n) => {
            lemma_digits_are_digits(n);
            assert(s[0] == digits(n)[0]);
            assert(s[0] != 'n');
            lemma_p_u64_rt(n, rest);
        },
    }
}

/// The scope parser undoes the scope encoder.
pub proof fn lemma_p_scope_rt(v: Scope, rest: Seq<char>)
    ensures
        p_scope(scope_json(v) + rest) == Some((v, rest)),
{
    reveal_strlit("\"global\"");
    reveal_strlit("\"repo\"");
    reveal_strlit("\"dir\"");
    match v {
        Scope::Global => {
            lemma_p_lit_rt("\"global\""@, rest);
        },
        Scope::Repo => {
            lemma_lit_differs("\"repo\""@, "\"global\""@, rest, 1);
            lemma_p_lit_rt("\"repo\""@, rest);
        },
        Scope::Dir => {
            lemma_lit_differs("\"dir\""@, "\"global\""@, rest, 1);
            lemma_lit_differs("\"dir\""@, "\"repo\""@, rest, 1);
            lemma_p_lit_rt("\"dir\""@, rest);
        },
    }
}

/// The status parser undoes the status encoder.
pub proof fn lemma_p_status_rt(v: Status, rest: Seq<char>)
    ensures
        p_status(status_json(v) + rest) == Some((v, rest)),
{
    reveal_strlit("\"active\"");
    reveal_strlit("\"archived\"");
    match v {
        Status::Active => {
            lemma_p_lit_rt("\"active\""@, rest);
        },
        Status::Archived => {
            lemma_lit_differs("\"archived\""@, "\"active\""@, rest, 2);
            lemma_p_lit_rt("\"archived\""@, rest);
        },
    }
}

/// The kind parser undoes the kind encoder.
pub proof fn lemma_p_kind_rt(v: Kind, rest: Seq<char>)
    ensures
        p_kind(kind_json(v) + rest) == Some((v, rest)),
{
    reveal_strlit("\"pref\"");
    reveal_strlit("\"fact\"");
    reveal_strlit("\"profile\"");
    reveal_strlit("\"instruction\"");
    reveal_strlit("\"note\"");
    match v {
        Kind::Pref => {
            lemma_p_lit_rt("\"pref\""@, rest);
        },
        Kind::Fact => {
            lemma_lit_differs("\"fact\""@, "\"pref\""@, rest, 1);
            lemma_p_lit_rt("\"fact\""@, rest);
        },
        Kind::Profile => {
            lemma_lit_differs("\"profile\""@, "\"pref\""@, rest, 3);
            lemma_lit_differs("\"profile\""@, "\"fact\""@, rest, 1);
            lemma_p_lit_rt("\"profile\""@, rest);
        },
        Kind::Instruction => {
            lemma_lit_differs("\"instruction\""@, "\"pref\""@, rest, 1);
            lemma_lit_differs("\"instruction\""@, "\"fact\""@, rest, 1);
            lemma_lit_differs("\"instruction\""@, "\"profile\""@, rest, 1);
            lemma_p_lit_rt("\"instruction\""@, rest);
        },
        Kind::Note => {
            lemma_lit_differs("\"note\""@, "\"pref\""@, rest, 1);
            lemma_lit_differs("\"note\""@, "\"fact\""@, rest, 1);
            lemma_lit_differs("\"note\""@, "\"profile\""@, rest, 1);
            lemma_lit_differs("\"note\""@, "\"instruction\""@, rest, 1);
            lemma_p_lit_rt("\"note\""@, rest);
        },
    }
}

/// The hints parser undoes the hints encoder.
pub proof fn lemma_p_hints_rt(h: HintsView, rest: Seq<char>)
    ensures
        p_hints(enc_hints(h) + rest) == Some((h, rest)),
{
    let e9 = "}"@ + rest;
    let e8 = enc_str_array(h.commands) + e9;
    let e7 = ",\"commands\":"@ + e8;
    let e6 = enc_str_array(h.languages) + e7;
    let e5 = ",\"languages\":"@ + e6;
    let e4 = enc_str_array(h.crates) + e5;
    let e3 = ",\"crates\":"@ + e4;
    let e2 = enc_str_array(h.files) + e3;
    let s = enc_hints(h) + rest;
    assert(s =~= "{\"files\":"@ + e2);
    lemma_p_lit_rt("{\"files\":"@, e2);
    lemma_p_str_array_rt(h.files, e3);
    lemma_p_lit_rt(",\"crates\":"@, e4);
    lemma_p_str_array_rt(h.crates, e5);
    lemma_p_lit_rt(",\"languages\":"@, e6);
    lemma_p_str_array_rt(h.languages, e7);
    lemma_p_lit_rt(",\"commands\":"@, e8);
    lemma_p_str_array_rt(h.commands, e9);
    lemma_p_lit_rt("}"@, rest);
    assert((HintsView {
        files: h.files,
        crates: h.crates,
        languages: h.languages,
        commands: h.commands,
    }) =~= h);
}

/// The counters parser undoes the counters encoder.
pub proof fn lemma_p_counters_rt(c: CountersView, rest: Seq<char>)
    ensures
        p_counters(enc_counters(c) + rest) == Some((c, rest)),
{
    reveal_strlit(",\"used_count\":");
    reveal_strlit(",\"last_used_at\":");
    let e7 = "}"@ + rest;
    let e6 = enc_opt_str(c.last_used_at) + e7;
    let e5 = ",\"last_used_at\":"@ + e6;
    let e4 = digits(c.used_count as u64) + e5;
    let e3 = ",\"used_count\":"@ + e4;
    let e2 = digits(c.seen_count as u64) + e3;
    let s = enc_counters(c) + rest;
    assert(s =~= "{\"seen_count\":"@ + e2);
    lemma_p_lit_rt("{\"seen_count\":"@, e2);
    assert(e3[0] == ',');
    assert(dig_val(',') is None);
    lemma_p_u64_rt(c.seen_count as u64, e3);
    lemma_p_lit_rt(",\"used_count\":"@, e4);
    assert(e5[0] == ',');
    lemma_p_u64_rt(c.used_count as u64, e5);
    lemma_p_lit_rt(",\"last_used_at\":"@, e6);
    lemma_p_opt_str_rt(c.last_used_at, e7);
    lemma_p_lit_rt("}"@, rest);
    assert((CountersView {
        seen_count: ((c.seen_count as u64) as u32),
        used_count: ((c.used_count as u64) as u32),
        last_used_at: c.last_used_at,
    }) =~= c);
}

/// The expiry parser undoes the expiry encoder.
pub proof fn lemma_p_expiry_rt(o: Option<ExpiryView>, rest: Seq<char>)
    ensures
        p_expiry(enc_expiry(o) + rest) == Some((o, rest)),
{
    reveal_strlit("null");
    reveal_strlit("{\"ttl_secs\":");
    reveal_strlit(",\"review_after\":");
    let s = enc_expiry(o) + rest;
    match o {
        None => {
            assert(s[0] == 'n');
            lemma_p_lit_rt("null"@, rest);
        },
        Some(e) => {
            let e5 = "}"@ + rest;
            let e4 = enc_opt_str(e.review_after) + e5;
            let e3 = ",\"review_after\":"@ + e4;
            let e2 = enc_opt_u64(e.ttl_secs) + e3;
            assert(s =~= "{\"ttl_secs\":"@ + e2);
            assert(s[0] == '{');
            lemma_p_lit_rt("{\"ttl_secs\":"@, e2);
            assert(e3[0] == ',');
            assert(dig_val(',') is None);
            lemma_p_opt_u64_rt(e.ttl_secs, e3);
            lemma_p_lit_rt(",\"review_after\":"@, e4);
            lemma_p_opt_str_rt(e.review_after, e5);
            lemma_p_lit_rt("}"@, rest);
            assert((ExpiryView { ttl_secs: e.ttl_secs, review_after: e.review_after }) =~= e);
        },
    }
}

/// Re-association of a four-part concatenation.
proof fn lemma_chain4(a: Seq<char>, b: Seq<char>, c: Seq<char>, d: Seq<char>)
    ensures
        ((a + b) + c) + d == a + (b + (c + d)),
{
    assert(((a + b) + c) + d =~= a + (b + (c + d)));
}

/// Re-association of a nine-part concatenation.
proof fn lemma_chain9(
    s1: Seq<char>,
    s2: Seq<char>,
    s3: Seq<char>,
    s4: Seq<char>,
    s5: Seq<char>,
    s6: Seq<char>,
    s7: Seq<char>,
    s8: Seq<char>,
    t: Seq<char>,
)
    ensures
        s1 + s2 + s3 + s4 + s5 + s6 + s7 + s8 + t == s1 + (s2 + (s3 + (s4 + (s5 + (s6 + (s7 + (s8
            + t))))))),
{
    assert(s1 + s2 + s3 + s4 + s5 + s6 + s7 + s8 + t =~= s1 + (s2 + (s3 + (s4 + (s5 + (s6 + (s7 + (
        s8 + t))))))));
}

/// Re-association of a twelve-part concatenation.
proof fn lemma_chain12(
    s1: Seq<char>,
    s2: Seq<char>,
    s3: Seq<char>,
    s4: Seq<char>,
    s5: Seq<char>,
    s6: Seq<char>,
    s7: Seq<char>,
    s8: Seq<char>,
    s9: Seq<char>,
    s10: Seq<char>,
    s11: Seq<char>,
    t: Seq<char>,
)
    ensures
        s1 + s2 + s3 + s4 + s5 + s6 + s7 + s8 + s9 + s10 + s11 + t == s1 + (s2 + (s3 + (s4 + (s5 + (
            s6 + (s7 + (s8 + (s9 + (s10 + (s11 + t)))))))))),
{
    assert(s1 + s2 + s3 + s4 + s5 + s6 + s7 + s8 + s9 + s10 + s11 + t =~= s1 + (s2 + (s3 + (s4 + (s5
        + (s6 + (s7 + (s8 + (s9 + (s10 + (s11 + t)))))))))));
}

/// The trailing-fields parser undoes the trailing-fields encoder.
#[verifier::rlimit(100)]
proof fn lemma_p_item_c_rt(v: ItemView, rest: Seq<char>)
    ensures
        p_item_rest2(
            v.id,
            v.created_at,
            v.updated_at,
            v.schema_version,
            v.source,
            v.scope,
            v.status,
            v.kind,
            enc_item_c(v) + rest,
        ) == Some((v, rest)),
{
    let e27 = "}"@ + rest;
    let e26 = enc_expiry(v.expiry) + e27;
    let e25 = ",\"expiry\":"@ + e26;
    let e24 = enc_counters(v.counters) + e25;
    let e23 = ",\"counters\":"@ + e24;
    let e22 = enc_hints(v.relevance_hints) + e23;
    let e21 = ",\"relevance_hints\":"@ + e22;
    let e20 = enc_str_array(v.tags) + e21;
    let e19 = ",\"tags\":"@ + e20;
    let e18 = enc_str(v.content) + e19;
    let s = enc_item_c(v) + rest;
    lemma_chain12(
        ",\"content\":"@,
        enc_str(v.content),
        ",\"tags\":"@,
        enc_str_array(v.tags),
        ",\"relevance_hints\":"@,
        enc_hints(v.relevance_hints),
        ",\"counters\":"@,
        enc_counters(v.counters),
        ",\"expiry\":"@,
        enc_expiry(v.expiry),
        "}"@,
        rest,
    );
    assert(s == ",\"content\":"@ + e18);
    lemma_p_lit_rt(",\"content\":"@, e18);
    lemma_p_str_rt(v.content, e19);
    lemma_p_lit_rt(",\"tags\":"@, e20);
    lemma_p_str_array_rt(v.tags, e21);
    lemma_p_lit_rt(",\"relevance_hints\":"@, e22);
    lemma_p_hints_rt(v.relevance_hints, e23);
    lemma_p_lit_rt(",\"counters\":"@, e24);
    lemma_p_counters_rt(v.counters, e25);
    lemma_p_lit_rt(",\"expiry\":"@, e26);
    lemma_p_expiry_rt(v.expiry, e27);
    lemma_p_lit_rt("}"@, rest);
    assert((ItemView {
        id: v.id,
        created_at: v.created_at,
        updated_at: v.updated_at,
        schema_version: v.schema_version,
        source: v.source,
        scope: v.scope,
        status: v.status,
        kind: v.kind,
        content: v.content,
        tags: v.tags,
        relevance_hints: v.relevance_hints,
        counters: v.counters,
        expiry: v.expiry,
    }) =~= v);
}

/// The middle-fields parser undoes the middle-fields encoder.
#[verifier::rlimit(100)]
proof fn lemma_p_item_b_rt(v: ItemView, rest: Seq<char>)
    ensures
        p_item_rest1(
            v.id,
            v.created_at,
            v.updated_at,
            v.schema_version,
            enc_item_b(v) + (enc_item_c(v) + rest),
        ) == Some((v, rest)),
{
    let tail = enc_item_c(v) + rest;
    let e16 = kind_json(v.kind) + tail;
    let e15 = ",\"kind\":"@ + e16;
    let e14 = status_json(v.status) + e15;
    let e13 = ",\"status\":"@ + e14;
    let e12 = scope_json(v.scope) + e13;
    let e11 = ",\"scope\":"@ + e12;
    let e10 = enc_str(v.source) + e11;
    let s = enc_item_b(v) + tail;
    lemma_chain9(
        ",\"source\":"@,
        enc_str(v.source),
        ",\"scope\":"@,
        scope_json(v.scope),
        ",\"status\":"@,
        status_json(v.status),
        ",\"kind\":"@,
        kind_json(v.kind),
        tail,
    );
    assert(s == ",\"source\":"@ + e10);
    lemma_p_lit_rt(",\"source\":"@, e10);
    lemma_p_str_rt(v.source, e11);
    lemma_p_lit_rt(",\"scope\":"@, e12);
    lemma_p_scope_rt(v.scope, e13);
    lemma_p_lit_rt(",\"status\":"@, e14);
    lemma_p_status_rt(v.status, e15);
    lemma_p_lit_rt(",\"kind\":"@, e16);
    lemma_p_kind_rt(v.kind, tail);
    lemma_p_item_c_rt(v, rest);
}

/// The item parser undoes the item encoder.
#[verifier::rlimit(100)]
pub proof fn lemma_p_item_rt(v: ItemView, rest: Seq<char>)
    ensures
        p_item(enc_item(v) + rest) == Some((v, rest)),
{
    reveal(enc_item);
    reveal_strlit(",\"source\":");
    let tail = enc_item_b(v) + (enc_item_c(v) + rest);
    let e8 = digits(v.schema_version as u64) + tail;
    let e7 = ",\"schema_version\":"@ + e8;
    let e6 = enc_str(v.updated_at) + e7;
    let e5 = ",\"updated_at\":"@ + e6;
    let e4 = enc_str(v.created_at) + e5;
    let e3 = ",\"created_at\":"@ + e4;
    let e2 = enc_str(v.id) + e3;
    let s = enc_item(v) + rest;
    lemma_chain4(enc_item_a(v), enc_item_b(v), enc_item_c(v), rest);
    lemma_chain9(
        "{\"id\":"@,
        enc_str(v.id),
        ",\"created_at\":"@,
        enc_str(v.created_at),
        ",\"updated_at\":"@,
        enc_str(v.updated_at),
        ",\"schema_version\":"@,
        digits(v.schema_version as u64),
        tail,
    );
    assert(s == "{\"id\":"@ + e2);
    reveal_strlit("{\"id\":");
    reveal_strlit("{");
    reveal_strlit("\"id\":");
    assert("{\"id\":"@ =~= "{"@ + "\"id\":"@);
    assert(s =~= "{"@ + ("\"id\":"@ + e2));
    lemma_p_lit_rt("{"@, "\"id\":"@ + e2);
    lemma_p_lit_rt("\"id\":"@, e2);
    lemma_p_str_rt(v.id, e3);
    lemma_p_lit_rt(",\"created_at\":"@, e4);
    lemma_p_str_rt(v.created_at, e5);
    lemma_p_lit_rt(",\"updated_at\":"@, e6);
    lemma_p_str_rt(v.updated_at, e7);
    lemma_p_lit_rt(",\"schema_version\":"@, e8);
    assert(enc_item_b(v)[0] == ',');
    assert(tail[0] == ',');
    assert(dig_val(',') is None);
    lemma_p_u64_rt(v.schema_version as u64, tail);
    lemma_p_item_b_rt(v, rest);
    assert((v.schema_version as u64) as u16 == v.schema_version);
}

/// A whole encoded line parses back to the item it encodes.
pub proof fn lemma_item_line_rt(v: ItemView)
    ensures
        p_item_line(enc_item(v)) == Some(v),
{
    reveal(p_item_line);
    lemma_p_item_rt(v, Seq::empty());
    assert(enc_item(v) + Seq::<char>::empty() =~= enc_item(v));
}

} // verus!
