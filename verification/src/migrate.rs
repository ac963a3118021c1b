//! One-shot utilities over the record file: compaction, which drops blank
//! lines and duplicate ids, and the strict read that feeds the relational
//! backend's migration.

use vstd::prelude::*;

use crate::item_codec::p_item_line;
use crate::item_codec::parse_item_line;
use crate::store::line_split;
use crate::store::read_items;
use crate::store::split_lines_chars;
use crate::store::trim_chars;
use crate::store::trim_spec;
use crate::text::chars_eq;
use crate::text::chars_to_string;
use crate::text::str_to_chars;
use crate::types::items_view;
use crate::types::ItemView;
use crate::types::MemoryItem;
use crate::types::StoreError;

verus! {

/// One step of compaction folded over the lines from the cursor on: the
/// output text, the ids already written, lines read, records written.
pub open spec fn compact_acc(
    lines: Seq<Seq<char>>,
    i: int,
    seen: Seq<Seq<char>>,
    out: Seq<char>,
    read: int,
    written: int,
) -> (Seq<char>, Seq<Seq<char>>, int, int)
    decreases lines.len() - i,
{
    if i < 0 || i >= lines.len() {
        (out, seen, read, written)
    } else {
        let t = trim_spec(lines[i]);
        if t.len() == 0 {
            compact_acc(lines, i + 1, seen, out, read, written)
        } else {
            match p_item_line(t) {
                Some(v) => if seen.contains(v.id) {
                    compact_acc(lines, i + 1, seen, out, read + 1, written)
                } else {
                    compact_acc(
                        lines,
                        i + 1,
                        seen.push(v.id),
                        out + t + seq!['\n'],
                        read + 1,
                        written + 1,
                    )
                },
                None => compact_acc(lines, i + 1, seen, out, read + 1, written),
            }
        }
    }
}

/// What compaction makes of a text: output, distinct ids, counts.
pub open spec fn compact_spec(content: Seq<char>) -> (Seq<char>, Seq<Seq<char>>, int, int) {
    compact_acc(line_split(content), 0, Seq::empty(), Seq::empty(), 0, 0)
}

/// Compaction never writes more records than it reads, and writes exactly
/// one record for each distinct id it keeps.
pub proof fn lemma_compact_counts(
    lines: Seq<Seq<char>>,
    i: int,
    seen: Seq<Seq<char>>,
    out: Seq<char>,
    read: int,
    written: int,
)
    requires
        written == seen.len(),
    ensures
        ({
            let r = compact_acc(lines, i, seen, out, read, written);
            &&& r.3 - written <= r.2 - read
            &&& r.2 >= read
            &&& r.3 >= written
            &&& r.3 == r.1.len()
        }),
    decreases lines.len() - i,
{
    if i < 0 || i >= lines.len() {
    } else {
        let t = trim_spec(lines[i]);
        if t.len() == 0 {
            lemma_compact_counts(lines, i + 1, seen, out, read, written);
        } else {
            match p_item_line(t) {
                Some(v) => if seen.contains(v.id) {
                    lemma_compact_counts(lines, i + 1, seen, out, read + 1, written);
                } else {
                    lemma_compact_counts(
                        lines,
                        i + 1,
                        seen.push(v.id),
                        out + t + seq!['\n'],
                        read + 1,
                        written + 1,
                    );
                },
                None => {
                    lemma_compact_counts(lines, i + 1, seen, out, read + 1, written);
                },
            }
        }
    }
}

/// Whether some line from the cursor on parses to a record of the id.
pub open spec fn input_has_id(lines: Seq<Seq<char>>, i: int, id: Seq<char>) -> bool
    decreases lines.len() - i,
{
    if i < 0 || i >= lines.len() {
        false
    } else {
        let t = trim_spec(lines[i]);
        (t.len() > 0 && match p_item_line(t) {
            Some(v) => v.id == id,
            None => false,
        }) || input_has_id(lines, i + 1, id)
    }
}

/// Whether a sequence of ids holds no id twice.
pub open spec fn distinct_ids(s: Seq<Seq<char>>) -> bool {
    forall|a: int, b: int| 0 <= a < b < s.len() ==> (#[trigger] s[a]) != (#[trigger] s[b])
}

/// Compaction never records an id twice: pairwise distinct ids in stay so
/// through the fold.
pub proof fn lemma_compact_distinct(
    lines: Seq<Seq<char>>,
    i: int,
    seen: Seq<Seq<char>>,
    out: Seq<char>,
    read: int,
    written: int,
)
    requires
        distinct_ids(seen),
    ensures
        distinct_ids(compact_acc(lines, i, seen, out, read, written).1),
    decreases lines.len() - i,
{
    if i < 0 || i >= lines.len() {
    } else {
        let t = trim_spec(lines[i]);
        if t.len() == 0 {
            lemma_compact_distinct(lines, i + 1, seen, out, read, written);
        } else {
            match p_item_line(t) {
                Some(v) => if seen.contains(v.id) {
                    lemma_compact_distinct(lines, i + 1, seen, out, read + 1, written);
                } else {
                    let s2 = seen.push(v.id);
                    assert forall|a: int, b: int| 0 <= a < b < s2.len() implies (#[trigger] s2[a])
                        != (#[trigger] s2[b]) by {
                        if b == s2.len() - 1 {
                            assert(s2[b] == v.id);
                            assert(s2[a] == seen[a]);
                            if seen[a] == v.id {
                                assert(seen.contains(v.id));
                            }
                        } else {
                            assert(s2[a] == seen[a] && s2[b] == seen[b]);
                            assert(seen[a] != seen[b]);
                        }
                    }
                    assert(distinct_ids(s2));
                    lemma_compact_distinct(
                        lines,
                        i + 1,
                        s2,
                        out + t + seq!['\n'],
                        read + 1,
                        written + 1,
                    );
                },
                None => {
                    lemma_compact_distinct(lines, i + 1, seen, out, read + 1, written);
                },
            }
        }
    }
}

/// An id comes out of the fold exactly when it went in or some record of
/// the remaining input carries it.
pub proof fn lemma_compact_id_cover(
    lines: Seq<Seq<char>>,
    i: int,
    seen: Seq<Seq<char>>,
    out: Seq<char>,
    read: int,
    written: int,
    id: Seq<char>,
)
    ensures
        ({
            let r = compact_acc(lines, i, seen, out, read, written);
            r.1.contains(id) <==> (seen.contains(id) || input_has_id(lines, i, id))
        }),
    decreases lines.len() - i,
{
    if i < 0 || i >= lines.len() {
    } else {
        let t = trim_spec(lines[i]);
        if t.len() == 0 {
            lemma_compact_id_cover(lines, i + 1, seen, out, read, written, id);
        } else {
            match p_item_line(t) {
                Some(v) => if seen.contains(v.id) {
                    lemma_compact_id_cover(lines, i + 1, seen, out, read + 1, written, id);
                } else {
                    let s2 = seen.push(v.id);
                    assert(s2.contains(id) <==> (seen.contains(id) || id == v.id)) by {
                        if s2.contains(id) {
                            let k = choose|k: int| 0 <= k < s2.len() && s2[k] == id;
                            if k < seen.len() {
                                assert(seen[k] == id);
                            }
                        }
                        if seen.contains(id) {
                            let k = choose|k: int| 0 <= k < seen.len() && seen[k] == id;
                            assert(s2[k] == id);
                        }
                        if id == v.id {
                            assert(s2[s2.len() - 1] == id);
                        }
                    }
                    lemma_compact_id_cover(
                        lines,
                        i + 1,
                        s2,
                        out + t + seq!['\n'],
                        read + 1,
                        written + 1,
                        id,
                    );
                },
                None => {
                    lemma_compact_id_cover(lines, i + 1, seen, out, read + 1, written, id);
                },
            }
        }
    }
}

/// Compaction writes exactly one record for each distinct id among the
/// input's parseable records: the kept ids are pairwise distinct, they are
/// exactly the ids those records carry, and the written count is their
/// number.
pub proof fn lemma_compact_one_per_id(content: Seq<char>)
    ensures
        ({
            let r = compact_spec(content);
            &&& distinct_ids(r.1)
            &&& forall|id: Seq<char>|
                #[trigger] r.1.contains(id) <==> input_has_id(line_split(content), 0, id)
            &&& r.3 == r.1.len()
        }),
{
    let lines = line_split(content);
    assert(distinct_ids(Seq::<Seq<char>>::empty()));
    lemma_compact_distinct(lines, 0, Seq::empty(), Seq::empty(), 0, 0);
    assert forall|id: Seq<char>|
        #[trigger] compact_spec(content).1.contains(id) <==> input_has_id(lines, 0, id) by {
        lemma_compact_id_cover(lines, 0, Seq::empty(), Seq::empty(), 0, 0, id);
        assert(!Seq::<Seq<char>>::empty().contains(id));
    }
    lemma_compact_counts(lines, 0, Seq::empty(), Seq::empty(), 0, 0);
}

/// The fold's output text reads back as the kept records: a closed output
/// accumulator whose records carry the seen ids grows one record for each
/// kept id.
proof fn lemma_compact_read_back(
    lines: Seq<Seq<char>>,
    i: int,
    seen: Seq<Seq<char>>,
    out: Seq<char>,
    read: int,
    written: int,
)
    requires
        out.len() == 0 || out.last() == '\n',
        read_items(line_split(out)).map_values(|v: ItemView| v.id) == seen,
        forall|k: int| 0 <= k < lines.len() ==> crate::store::no_nl(#[trigger] lines[k]),
    ensures
        ({
            let r = compact_acc(lines, i, seen, out, read, written);
            read_items(line_split(r.0)).map_values(|v: ItemView| v.id) == r.1
        }),
    decreases lines.len() - i,
{
    if i < 0 || i >= lines.len() {
    } else {
        let t = trim_spec(lines[i]);
        if t.len() == 0 {
            lemma_compact_read_back(lines, i + 1, seen, out, read, written);
        } else {
            match p_item_line(t) {
                Some(v) => if seen.contains(v.id) {
                    lemma_compact_read_back(lines, i + 1, seen, out, read + 1, written);
                } else {
                    let out2 = out + t + seq!['\n'];
                    crate::store::lemma_trim_spec_facts(lines[i]);
                    assert(crate::store::no_nl(t));
                    assert(trim_spec(t) == t);
                    crate::store::lemma_line_split_concat(out, t + seq!['\n']);
                    crate::store::lemma_line_split_record(t, Seq::empty());
                    assert((t + seq!['\n']) + Seq::<char>::empty() =~= t + seq!['\n']);
                    assert(line_split(Seq::<char>::empty()) =~= Seq::<Seq<char>>::empty());
                    assert(line_split(t + seq!['\n']) =~= seq![t]);
                    assert(out2 =~= out + (t + seq!['\n']));
                    crate::store::lemma_read_items_concat(line_split(out), seq![t]);
                    assert(seq![t].drop_first() =~= Seq::<Seq<char>>::empty());
                    assert(read_items(Seq::<Seq<char>>::empty()) =~= Seq::<ItemView>::empty());
                    assert(seq![t][0] == t);
                    assert(read_items(seq![t]) =~= seq![v] + Seq::<ItemView>::empty());
                    assert(seq![v] + Seq::<ItemView>::empty() =~= seq![v]);
                    assert(read_items(line_split(out2)) =~= read_items(line_split(out)).push(v));
                    assert(read_items(line_split(out2)).map_values(|v: ItemView| v.id)
                        =~= seen.push(v.id));
                    assert(out2.last() == '\n');
                    lemma_compact_read_back(
                        lines,
                        i + 1,
                        seen.push(v.id),
                        out2,
                        read + 1,
                        written + 1,
                    );
                },
                None => {
                    lemma_compact_read_back(lines, i + 1, seen, out, read + 1, written);
                },
            }
        }
    }
}

/// The output of compaction holds exactly one record line for each kept
/// id: read back, its records carry the kept ids, in the order the ids
/// first appeared among the input's parseable records.
pub proof fn lemma_compact_output_reads_back(content: Seq<char>)
    ensures
        ({
            let r = compact_spec(content);
            read_items(line_split(r.0)).map_values(|v: ItemView| v.id) == r.1
        }),
{
    crate::store::lemma_line_split_no_nl(content);
    assert(line_split(Seq::<char>::empty()) =~= Seq::<Seq<char>>::empty());
    assert(read_items(Seq::<Seq<char>>::empty()).map_values(|v: ItemView| v.id) =~= Seq::<
        Seq<char>,
    >::empty());
    lemma_compact_read_back(line_split(content), 0, Seq::empty(), Seq::empty(), 0, 0);
}

/// Whether an id vector holds the given id.
fn ids_contain(seen: &Vec<String>, id: &Vec<char>) -> (r: bool)
    ensures
        r == seen.deep_view().contains(id@),
{
    let ghost dv = seen.deep_view();
    let mut i: usize = 0;
    while i < seen.len()
        invariant
            i <= seen@.len(),
            dv == seen.deep_view(),
            dv.len() == seen@.len(),
            forall|k: int| 0 <= k < i ==> dv[k] != id@,
        decreases seen@.len() - i,
    {
        proof {
            assert(dv[i as int] =~= seen@[i as int]@);
        }
        let sc = str_to_chars(seen[i].as_str());
        if chars_eq(&sc, id) {
            proof {
                assert(dv.contains(id@));
            }
            return true;
        }
        i = i + 1;
    }
    proof {
        if dv.contains(id@) {
            let k = choose|k: int| 0 <= k < dv.len() && dv[k] == id@;
        }
    }
    false
}

/// Rewrites record text without blank lines, unreadable lines, or lines
/// whose id already appeared: the first record of each id survives.
/// Returns the output text, the non-blank lines read, and the records
/// written.
pub fn compact_jsonl(content: &str) -> (r: (String, usize, usize))
    ensures
        ({
            let spec = compact_spec(content@);
            &&& r.0@ == spec.0
            &&& r.1 as int == spec.2
            &&& r.2 as int == spec.3
            &&& r.2 <= r.1
        }),
{
    let cs = str_to_chars(content);
    let lines = split_lines_chars(&cs);
    let ghost dv = lines.deep_view();
    let mut out: Vec<char> = Vec::new();
    let mut seen: Vec<String> = Vec::new();
    let mut read: usize = 0;
    let mut written: usize = 0;
    let mut i: usize = 0;
    proof {
        assert(seen.deep_view() =~= Seq::<Seq<char>>::empty());
        assert(out@ =~= Seq::<char>::empty());
    }
    while i < lines.len()
        invariant
            i <= lines@.len(),
            dv == lines.deep_view(),
            dv.len() == lines@.len(),
            written == seen.deep_view().len(),
            written <= read <= i,
            compact_spec(content@) == compact_acc(
                dv,
                i as int,
                seen.deep_view(),
                out@,
                read as int,
                written as int,
            ),
        decreases lines@.len() - i,
    {
        proof {
            assert(dv[i as int] =~= lines@[i as int]@);
        }
        let t = trim_chars(&lines[i]);
        if t.len() > 0 {
            match parse_item_line(&t) {
                Some(item) => {
                    let idc = str_to_chars(item.id.as_str());
                    if ids_contain(&seen, &idc) {
                        read = read + 1;
                    } else {
                        let ghost prev_seen = seen.deep_view();
                        let ghost prev_out = out@;
                        seen.push(item.id.clone());
                        let mut piece = t;
                        out.append(&mut piece);
                        out.push('\n');
                        read = read + 1;
                        written = written + 1;
                        proof {
                            assert(seen.deep_view() =~= prev_seen.push(item@.id));
                            assert(out@ =~= prev_out + trim_spec(dv[i as int]) + seq!['\n']);
                        }
                    }
                },
                None => {
                    read = read + 1;
                },
            }
        }
        i = i + 1;
    }
    proof {
        let spec = compact_spec(content@);
        lemma_compact_counts(dv, dv.len() as int, seen.deep_view(), out@, read as int, written as int);
    }
    (chars_to_string(&out), read, written)
}

/// Reads every record of a text strictly, or nothing: the transactional
/// read behind migration into the relational backend.
pub open spec fn strict_read(lines: Seq<Seq<char>>, i: int) -> Option<Seq<ItemView>>
    decreases lines.len() - i,
{
    if i < 0 || i >= lines.len() {
        Some(Seq::empty())
    } else {
        let t = trim_spec(lines[i]);
        if t.len() == 0 {
            strict_read(lines, i + 1)
        } else {
            match p_item_line(t) {
                Some(v) => match strict_read(lines, i + 1) {
                    Some(rest) => Some(seq![v] + rest),
                    None => None,
                },
                None => None,
            }
        }
    }
}

/// Reads a record text for migration into the relational backend: every
/// record parsed, or a parse error and nothing imported, as the
/// relational import is transactional.  Returns the records in stream
/// order with their count.
pub fn migrate_jsonl_to_sqlite(content: &str) -> (r: Result<(Vec<MemoryItem>, usize), StoreError>)
    ensures
        match r {
            Ok((items, n)) => strict_read(line_split(content@), 0) == Some(items_view(items@))
                && n == items@.len(),
            Err(e) => e == StoreError::Parse && strict_read(line_split(content@), 0) is None,
        },
{
    let cs = str_to_chars(content);
    let lines = split_lines_chars(&cs);
    let ghost dv = lines.deep_view();
    let mut out: Vec<MemoryItem> = Vec::new();
    let mut i: usize = 0;
    proof {
        assert(items_view(out@) =~= Seq::<ItemView>::empty());
    }
    while i < lines.len()
        invariant
            i <= lines@.len(),
            dv == lines.deep_view(),
            dv == line_split(content@),
            dv.len() == lines@.len(),
            out@.len() <= i,
            ({
                let full = strict_read(dv, 0);
                let rest = strict_read(dv, i as int);
                match rest {
                    Some(tail) => full == Some(items_view(out@) + tail),
                    None => full is None,
                }
            }),
        decreases lines@.len() - i,
    {
        proof {
            assert(dv[i as int] =~= lines@[i as int]@);
        }
        let t = trim_chars(&lines[i]);
        if t.len() > 0 {
            match parse_item_line(&t) {
                Some(item) => {
                    let ghost prev = items_view(out@);
                    out.push(item);
                    proof {
                        assert(items_view(out@) =~= prev.push(items_view(out@)[out@.len() - 1]));
                        assert(prev + (seq![items_view(out@)[out@.len() - 1]] + strict_read(
                            dv,
                            (i + 1) as int,
                        )->Some_0) =~= items_view(out@) + strict_read(dv, (i + 1) as int)->Some_0);
                    }
                },
                None => {
                    return Err(StoreError::Parse);
                },
            }
        }
        i = i + 1;
    }
    proof {
        assert(strict_read(dv, dv.len() as int) == Some(Seq::<ItemView>::empty()));
        assert(items_view(out@) + Seq::<ItemView>::empty() =~= items_view(out@));
    }
    let n = out.len();
    Ok((out, n))
}

} // verus!
