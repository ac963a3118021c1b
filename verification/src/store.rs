//! The item store over newline-delimited record text.  The store keeps the
//! parsed items in memory; callers load and save the backing file's whole
//! content as a string, as the file backend rereads and rewrites it around
//! every operation.

use vstd::prelude::*;

use crate::text::lex_le;
use crate::text::str_le;
use crate::types::ScopeCounts;
use crate::types::Stats;
use crate::codec::digits;
use crate::codec::enc_str;
use crate::codec::enc_str_array;
use crate::codec::enc_str_items;
use crate::codec::esc_char;
use crate::codec::esc_seq;
use crate::item_codec::enc_counters;
use crate::item_codec::enc_expiry;
use crate::item_codec::enc_hints;
use crate::item_codec::enc_item;
use crate::item_codec::enc_item_a;
use crate::item_codec::enc_item_b;
use crate::item_codec::enc_item_c;
use crate::item_codec::enc_opt_str;
use crate::item_codec::enc_opt_u64;
use crate::item_codec::kind_json;
use crate::item_codec::scope_json;
use crate::item_codec::status_json;
use crate::types::CountersView;
use crate::types::ExpiryView;
use crate::types::HintsView;
use crate::item_codec::encode_item;
use crate::item_codec::p_item_line;
use crate::item_codec::parse_item_line;
use crate::text::chars_to_string;
use crate::text::str_eq;
use crate::text::str_to_chars;
use crate::types::items_view;
use crate::types::ItemView;
use crate::types::MemoryItem;
use crate::types::Scope;
use crate::types::Status;
use crate::types::StoreError;

verus! {

/// An ASCII whitespace character, as stripped from record lines.
pub open spec fn is_ws(c: char) -> bool {
    c == ' ' || c == '\t' || c == '\r' || c == '\n' || c == '\u{000B}' || c == '\u{000C}'
}

/// Reads whether a character is whitespace.
pub fn is_ws_exec(c: char) -> (r: bool)
    ensures
        r == is_ws(c),
{
    c == ' ' || c == '\t' || c == '\r' || c == '\n' || c == '\u{000B}' || c == '\u{000C}'
}

/// The sequence without its leading whitespace.
pub open spec fn trim_start(s: Seq<char>) -> Seq<char>
    decreases s.len(),
{
    if s.len() > 0 && is_ws(s[0]) {
        trim_start(s.drop_first())
    } else {
        s
    }
}

/// The sequence without its trailing whitespace.
pub open spec fn trim_end(s: Seq<char>) -> Seq<char>
    decreases s.len(),
{
    if s.len() > 0 && is_ws(s.last()) {
        trim_end(s.drop_last())
    } else {
        s
    }
}

/// The sequence without leading or trailing whitespace.
pub open spec fn trim_spec(s: Seq<char>) -> Seq<char> {
    trim_end(trim_start(s))
}

/// The characters of a subrange, as a vector.
pub fn subrange_chars(v: &Vec<char>, a: usize, b: usize) -> (r: Vec<char>)
    requires
        a <= b <= v@.len(),
    ensures
        r@ == v@.subrange(a as int, b as int),
{
    let mut out: Vec<char> = Vec::new();
    let mut i: usize = a;
    while i < b
        invariant
            a <= i <= b <= v@.len(),
            out@ == v@.subrange(a as int, i as int),
        decreases b - i,
    {
        out.push(v[i]);
        proof {
            assert(v@.subrange(a as int, i as int).push(v@[i as int]) =~= v@.subrange(
                a as int,
                (i + 1) as int,
            ));
        }
        i = i + 1;
    }
    out
}

/// Strips leading and trailing whitespace from a character vector.
pub fn trim_chars(v: &Vec<char>) -> (r: Vec<char>)
    ensures
        r@ == trim_spec(v@),
{
    let n = v.len();
    let mut a: usize = 0;
    proof {
        assert(v@.skip(0) =~= v@);
    }
    while a < n && is_ws_exec(v[a])
        invariant
            a <= n,
            n == v@.len(),
            trim_start(v@) == trim_start(v@.skip(a as int)),
        decreases n - a,
    {
        proof {
            assert(v@.skip(a as int)[0] == v@[a as int]);
            assert(v@.skip(a as int).drop_first() =~= v@.skip((a + 1) as int));
        }
        a = a + 1;
    }
    proof {
        if a < n {
            assert(v@.skip(a as int)[0] == v@[a as int]);
        }
        assert(trim_start(v@) == v@.skip(a as int));
    }
    let mut b: usize = n;
    while b > a && is_ws_exec(v[b - 1])
        invariant
            a <= b <= n,
            n == v@.len(),
            trim_start(v@) == v@.skip(a as int),
            trim_end(v@.skip(a as int)) == trim_end(v@.subrange(a as int, b as int)),
        decreases b,
    {
        proof {
            assert(v@.subrange(a as int, b as int).last() == v@[b - 1]);
            assert(v@.subrange(a as int, b as int).drop_last() =~= v@.subrange(
                a as int,
                (b - 1) as int,
            ));
        }
        b = b - 1;
    }
    proof {
        if b > a {
            assert(v@.subrange(a as int, b as int).last() == v@[b - 1]);
        }
        assert(trim_end(v@.subrange(a as int, b as int)) == v@.subrange(a as int, b as int));
        assert(v@.skip(a as int) =~= v@.subrange(a as int, n as int));
    }
    subrange_chars(v, a, b)
}

/// The position of the first newline, or the length if there is none.
pub open spec fn nl_pos(s: Seq<char>) -> int
    decreases s.len(),
{
    if s.len() == 0 {
        0
    } else if s[0] == '\n' {
        0
    } else {
        1 + nl_pos(s.drop_first())
    }
}

/// The lines of a text: split on newlines, the final newline closing the
/// last line rather than opening an empty one.
pub open spec fn line_split(s: Seq<char>) -> Seq<Seq<char>>
    decreases s.len(),
{
    if s.len() == 0 {
        Seq::empty()
    } else {
        let k = nl_pos(s);
        if 0 <= k < s.len() {
            seq![s.take(k)] + line_split(s.skip(k + 1))
        } else {
            seq![s]
        }
    }
}

/// Splits a character vector into its lines.
pub fn split_lines_chars(v: &Vec<char>) -> (r: Vec<Vec<char>>)
    ensures
        r.deep_view() == line_split(v@),
{
    let n = v.len();
    let mut out: Vec<Vec<char>> = Vec::new();
    let mut pos: usize = 0;
    proof {
        assert(v@.skip(0) =~= v@);
    }
    while pos < n
        invariant
            pos <= n,
            n == v@.len(),
            line_split(v@) == out.deep_view() + line_split(v@.skip(pos as int)),
        decreases n - pos,
    {
        let mut j: usize = pos;
        while j < n && v[j] != '\n'
            invariant
                pos <= j <= n,
                n == v@.len(),
                nl_pos(v@.skip(pos as int)) == (j - pos) + nl_pos(v@.skip(j as int)),
            decreases n - j,
        {
            proof {
                assert(v@.skip(j as int)[0] == v@[j as int]);
                assert(v@.skip(j as int).drop_first() =~= v@.skip((j + 1) as int));
            }
            j = j + 1;
        }
        proof {
            if j < n {
                assert(v@.skip(j as int)[0] == v@[j as int]);
            } else {
                assert(v@.skip(j as int).len() == 0);
            }
            assert(nl_pos(v@.skip(j as int)) == 0);
            assert(nl_pos(v@.skip(pos as int)) == j - pos);
        }
        let line = subrange_chars(v, pos, j);
        let ghost old_dv = out.deep_view();
        proof {
            assert(line.deep_view() =~= line@);
        }
        out.push(line);
        proof {
            assert(out.deep_view() =~= old_dv.push(line@));
        }
        if j < n {
            proof {
                let suf = v@.skip(pos as int);
                assert(suf.take(nl_pos(suf)) =~= v@.subrange(pos as int, j as int));
                assert(suf.skip(nl_pos(suf) + 1) =~= v@.skip((j + 1) as int));
                assert(old_dv + (seq![line@] + line_split(v@.skip((j + 1) as int)))
                    =~= out.deep_view() + line_split(v@.skip((j + 1) as int)));
            }
            pos = j + 1;
        } else {
            proof {
                let suf = v@.skip(pos as int);
                assert(nl_pos(suf) >= suf.len());
                assert(suf =~= v@.subrange(pos as int, j as int));
                assert(line_split(suf) == seq![line@]);
                assert(old_dv + seq![line@] =~= out.deep_view());
                assert(v@.skip(n as int).len() == 0);
                assert(out.deep_view() + line_split(v@.skip(n as int)) =~= out.deep_view());
            }
            pos = n;
        }
    }
    proof {
        assert(v@.skip(n as int).len() == 0);
        assert(out.deep_view() + line_split(v@.skip(n as int)) =~= out.deep_view());
    }
    out
}

/// The items read from a sequence of lines: blank lines and lines that do
/// not parse are passed over.
pub open spec fn read_items(lines: Seq<Seq<char>>) -> Seq<ItemView>
    decreases lines.len(),
{
    if lines.len() == 0 {
        Seq::empty()
    } else {
        let t = trim_spec(lines[0]);
        let rest = read_items(lines.drop_first());
        if t.len() == 0 {
            rest
        } else {
            match p_item_line(t) {
                Some(v) => seq![v] + rest,
                None => rest,
            }
        }
    }
}

/// How many lines parse as records: what `import` counts.
pub open spec fn read_count(lines: Seq<Seq<char>>) -> int
    decreases lines.len(),
{
    if lines.len() == 0 {
        0
    } else {
        let t = trim_spec(lines[0]);
        let rest = read_count(lines.drop_first());
        if t.len() == 0 {
            rest
        } else {
            match p_item_line(t) {
                Some(v) => 1 + rest,
                None => rest,
            }
        }
    }
}

/// Parses the items out of a vector of lines.
fn read_items_exec(lines: &Vec<Vec<char>>) -> (r: (Vec<MemoryItem>, usize))
    ensures
        items_view(r.0@) == read_items(lines.deep_view()),
        r.1 == read_count(lines.deep_view()),
        r.1 <= lines@.len(),
{
    let ghost dv = lines.deep_view();
    let mut out: Vec<MemoryItem> = Vec::new();
    let mut count: usize = 0;
    let mut i: usize = 0;
    proof {
        assert(dv.skip(0) =~= dv);
        assert(items_view(out@) + read_items(dv) =~= read_items(dv));
    }
    while i < lines.len()
        invariant
            i <= lines@.len(),
            dv == lines.deep_view(),
            dv.len() == lines@.len(),
            count <= i,
            read_items(dv) == items_view(out@) + read_items(dv.skip(i as int)),
            read_count(dv) == count + read_count(dv.skip(i as int)),
        decreases lines@.len() - i,
    {
        proof {
            assert(dv.skip(i as int)[0] == dv[i as int]);
            assert(dv.skip(i as int).drop_first() =~= dv.skip((i + 1) as int));
            assert(dv[i as int] =~= lines@[i as int]@);
        }
        let t = trim_chars(&lines[i]);
        if t.len() > 0 {
            match parse_item_line(&t) {
                Some(item) => {
                    let ghost prev = items_view(out@);
                    out.push(item);
                    count = count + 1;
                    proof {
                        assert(items_view(out@) =~= prev.push(item@));
                        assert(prev + (seq![item@] + read_items(dv.skip((i + 1) as int)))
                            =~= items_view(out@) + read_items(dv.skip((i + 1) as int)));
                    }
                },
                None => {},
            }
        }
        i = i + 1;
    }
    proof {
        assert(dv.skip(dv.len() as int).len() == 0);
        assert(items_view(out@) + read_items(dv.skip(dv.len() as int)) =~= items_view(out@));
    }
    (out, count)
}

/// The rendered text of a sequence of items: one record per line, each line
/// closed by a newline.
pub open spec fn render_items(items: Seq<ItemView>) -> Seq<char>
    decreases items.len(),
{
    if items.len() == 0 {
        Seq::empty()
    } else {
        (enc_item(items[0]) + seq!['\n']) + render_items(items.drop_first())
    }
}

/// Rendering distributes over appending an item at the back.
pub proof fn lemma_render_snoc(items: Seq<ItemView>, v: ItemView)
    ensures
        render_items(items.push(v)) == render_items(items) + (enc_item(v) + seq!['\n']),
    decreases items.len(),
{
    if items.len() == 0 {
        assert(items.push(v)[0] == v);
        assert(items.push(v).drop_first() =~= Seq::<ItemView>::empty());
        assert(render_items(Seq::<ItemView>::empty()) == Seq::<char>::empty());
        assert(render_items(items.push(v)) == (enc_item(v) + seq!['\n']) + Seq::<char>::empty());
        assert(render_items(items.push(v)) =~= render_items(items) + (enc_item(v) + seq!['\n']));
    } else {
        assert(items.push(v)[0] == items[0]);
        assert(items.push(v).drop_first() =~= items.drop_first().push(v));
        lemma_render_snoc(items.drop_first(), v);
        assert((enc_item(items[0]) + seq!['\n']) + (render_items(items.drop_first()) + (enc_item(v)
            + seq!['\n'])) =~= ((enc_item(items[0]) + seq!['\n']) + render_items(
            items.drop_first(),
        )) + (enc_item(v) + seq!['\n']));
    }
}

/// Renders items into record text.
fn render_items_exec(items: &Vec<MemoryItem>) -> (r: Vec<char>)
    ensures
        r@ == render_items(items_view(items@)),
{
    let ghost iv = items_view(items@);
    let mut out: Vec<char> = Vec::new();
    let mut i: usize = 0;
    proof {
        assert(iv.take(0) =~= Seq::<ItemView>::empty());
    }
    while i < items.len()
        invariant
            i <= items@.len(),
            iv == items_view(items@),
            iv.len() == items@.len(),
            out@ == render_items(iv.take(i as int)),
        decreases items@.len() - i,
    {
        let mut line = encode_item(&items[i]);
        out.append(&mut line);
        out.push('\n');
        proof {
            assert(iv.take(i as int).push(iv[i as int]) =~= iv.take((i + 1) as int));
            lemma_render_snoc(iv.take(i as int), iv[i as int]);
            assert(out@ =~= render_items(iv.take(i as int)) + (enc_item(iv[i as int])
                + seq!['\n']));
        }
        i = i + 1;
    }
    proof {
        assert(iv.take(iv.len() as int) =~= iv);
    }
    out
}

/// Whether some element carries the given id.
pub open spec fn has_id(s: Seq<ItemView>, id: Seq<char>) -> bool {
    exists|k: int| 0 <= k < s.len() && #[trigger] s[k].id == id
}

/// The newest record with the given id, if any: the last one in stored
/// order, as the append-only file puts the newest record of an id last.
pub open spec fn get_spec(s: Seq<ItemView>, id: Seq<char>) -> Option<ItemView>
    decreases s.len(),
{
    if s.len() == 0 {
        None
    } else if s[0].id == id && !has_id(s.drop_first(), id) {
        Some(s[0])
    } else {
        get_spec(s.drop_first(), id)
    }
}

/// A record is found exactly when some record carries the id.
pub proof fn lemma_get_finds_id(s: Seq<ItemView>, id: Seq<char>)
    ensures
        get_spec(s, id) is Some <==> has_id(s, id),
        get_spec(s, id) matches Some(v) ==> v.id == id,
    decreases s.len(),
{
    if s.len() > 0 {
        lemma_get_finds_id(s.drop_first(), id);
        if has_id(s.drop_first(), id) {
            let k = choose|k: int|
                0 <= k < s.drop_first().len() && #[trigger] s.drop_first()[k].id == id;
            assert(s[k + 1].id == id);
        }
        if s[0].id == id {
            assert(has_id(s, id)) by {
                assert(s[0].id == id);
            }
        }
        if has_id(s, id) && s[0].id != id {
            let k = choose|k: int| 0 <= k < s.len() && #[trigger] s[k].id == id;
            assert(s.drop_first()[k - 1].id == id);
            assert(has_id(s.drop_first(), id));
        }
    }
}

/// The store as its readers see it: of each id only the newest record (the
/// last one in stored order) survives, in the order of those survivors.
pub open spec fn lww(s: Seq<ItemView>) -> Seq<ItemView>
    decreases s.len(),
{
    if s.len() == 0 {
        Seq::empty()
    } else if has_id(s.drop_first(), s[0].id) {
        lww(s.drop_first())
    } else {
        seq![s[0]] + lww(s.drop_first())
    }
}

/// An id is found in the read view exactly when some record carries it.
pub proof fn lemma_lww_has_id(s: Seq<ItemView>)
    ensures
        forall|id: Seq<char>| #[trigger] has_id(lww(s), id) <==> has_id(s, id),
    decreases s.len(),
{
    if s.len() > 0 {
        lemma_lww_has_id(s.drop_first());
        assert forall|id: Seq<char>| #[trigger]
            has_id(lww(s), id) <==> has_id(s, id) by {
            let t = lww(s.drop_first());
            if has_id(s.drop_first(), s[0].id) {
                if has_id(lww(s), id) {
                    let k = choose|k: int|
                        0 <= k < s.drop_first().len() && #[trigger] s.drop_first()[k].id == id;
                    assert(s[k + 1].id == id);
                }
                if has_id(s, id) {
                    let k = choose|k: int| 0 <= k < s.len() && #[trigger] s[k].id == id;
                    if k == 0 {
                        assert(has_id(s.drop_first(), id));
                    } else {
                        assert(s.drop_first()[k - 1].id == id);
                        assert(has_id(s.drop_first(), id));
                    }
                }
            } else {
                let r = seq![s[0]] + t;
                if has_id(r, id) {
                    let k = choose|k: int| 0 <= k < r.len() && #[trigger] r[k].id == id;
                    if k == 0 {
                        assert(s[0].id == id);
                    } else {
                        assert(t[k - 1].id == id);
                        assert(has_id(t, id));
                        let m = choose|m: int|
                            0 <= m < s.drop_first().len() && #[trigger] s.drop_first()[m].id == id;
                        assert(s[m + 1].id == id);
                    }
                }
                if has_id(s, id) {
                    let k = choose|k: int| 0 <= k < s.len() && #[trigger] s[k].id == id;
                    if k == 0 {
                        assert(r[0].id == id);
                    } else {
                        assert(s.drop_first()[k - 1].id == id);
                        assert(has_id(s.drop_first(), id));
                        assert(has_id(t, id));
                        let m = choose|m: int| 0 <= m < t.len() && #[trigger] t[m].id == id;
                        assert(r[m + 1].id == id);
                    }
                }
            }
        }
    }
}

/// The read view never holds an id twice.
pub proof fn lemma_lww_unique(s: Seq<ItemView>)
    ensures
        unique_ids(lww(s)),
    decreases s.len(),
{
    if s.len() > 0 {
        lemma_lww_unique(s.drop_first());
        lemma_lww_has_id(s.drop_first());
        if !has_id(s.drop_first(), s[0].id) {
            let t = lww(s.drop_first());
            let r = seq![s[0]] + t;
            assert(!has_id(t, s[0].id));
            assert forall|i: int, j: int| 0 <= i < j < r.len() implies (#[trigger] r[i].id) != (
            #[trigger] r[j].id) by {
                if i == 0 {
                    assert(r[j] == t[j - 1]);
                    if t[j - 1].id == s[0].id {
                        assert(has_id(t, s[0].id));
                    }
                } else {
                    assert(r[i] == t[i - 1] && r[j] == t[j - 1]);
                }
            }
        }
    }
}

/// A store whose ids are already unique reads as it stands.
pub proof fn lemma_lww_of_unique(s: Seq<ItemView>)
    requires
        unique_ids(s),
    ensures
        lww(s) == s,
    decreases s.len(),
{
    if s.len() > 0 {
        if has_id(s.drop_first(), s[0].id) {
            let k = choose|k: int|
                0 <= k < s.drop_first().len() && #[trigger] s.drop_first()[k].id == s[0].id;
            assert(s[k + 1].id == s[0].id);
        }
        assert(unique_ids(s.drop_first()));
        lemma_lww_of_unique(s.drop_first());
        assert(seq![s[0]] + s.drop_first() =~= s);
    }
}

/// Looking a record up reads the same view as listing does: the newest
/// record of an id is the one its read view holds.
pub proof fn lemma_get_reads_view(s: Seq<ItemView>, id: Seq<char>)
    ensures
        get_spec(s, id) == get_spec(lww(s), id),
    decreases s.len(),
{
    if s.len() > 0 {
        lemma_get_reads_view(s.drop_first(), id);
        lemma_lww_has_id(s.drop_first());
        if has_id(s.drop_first(), s[0].id) {
            if s[0].id == id {
                assert(get_spec(s, id) == get_spec(s.drop_first(), id));
            }
        } else {
            let r = seq![s[0]] + lww(s.drop_first());
            assert(r[0] == s[0]);
            assert(r.drop_first() =~= lww(s.drop_first()));
        }
    }
}

/// Reads whether any record from the cursor on carries the given id.
fn has_id_from(items: &Vec<MemoryItem>, id: &str, from: usize) -> (r: bool)
    requires
        from <= items@.len(),
    ensures
        r == has_id(items_view(items@).skip(from as int), id@),
{
    let ghost s = items_view(items@);
    let mut j: usize = from;
    while j < items.len()
        invariant
            from <= j <= items@.len(),
            s == items_view(items@),
            s.len() == items@.len(),
            forall|k: int| from <= k < j ==> (#[trigger] s[k]).id != id@,
        decreases items@.len() - j,
    {
        proof {
            assert(s[j as int] == items@[j as int]@);
        }
        if str_eq(items[j].id.as_str(), id) {
            proof {
                assert(s.skip(from as int)[j - from].id == id@);
            }
            return true;
        }
        j = j + 1;
    }
    proof {
        if has_id(s.skip(from as int), id@) {
            let k = choose|k: int|
                0 <= k < s.skip(from as int).len() && #[trigger] s.skip(from as int)[k].id == id@;
            assert(s[k + from].id == id@);
        }
    }
    false
}

/// Keeps, of each id, only the newest record, in the read view's order.
fn dedup_lww(items: &Vec<MemoryItem>) -> (r: Vec<MemoryItem>)
    ensures
        items_view(r@) == lww(items_view(items@)),
{
    let ghost s = items_view(items@);
    let mut out: Vec<MemoryItem> = Vec::new();
    let mut i: usize = 0;
    proof {
        assert(s.skip(0) =~= s);
        assert(items_view(out@) + lww(s) =~= lww(s));
    }
    while i < items.len()
        invariant
            i <= items@.len(),
            s == items_view(items@),
            s.len() == items@.len(),
            lww(s) == items_view(out@) + lww(s.skip(i as int)),
        decreases items@.len() - i,
    {
        proof {
            assert(s.skip(i as int)[0] == s[i as int]);
            assert(s[i as int] == items@[i as int]@);
            assert(s.skip(i as int).drop_first() =~= s.skip((i + 1) as int));
        }
        if !has_id_from(items, items[i].id.as_str(), i + 1) {
            let ghost prev = items_view(out@);
            out.push(items[i].duplicate());
            proof {
                assert(items_view(out@) =~= prev.push(s[i as int]));
                assert(prev + (seq![s[i as int]] + lww(s.skip((i + 1) as int))) =~= items_view(
                    out@,
                ) + lww(s.skip((i + 1) as int)));
            }
        }
        i = i + 1;
    }
    proof {
        assert(s.skip(s.len() as int).len() == 0);
        assert(items_view(out@) + lww(s.skip(s.len() as int)) =~= items_view(out@));
    }
    out
}

/// The sequence without the records of the given id.
pub open spec fn remove_id(s: Seq<ItemView>, id: Seq<char>) -> Seq<ItemView>
    decreases s.len(),
{
    if s.len() == 0 {
        Seq::empty()
    } else if s[0].id == id {
        remove_id(s.drop_first(), id)
    } else {
        seq![s[0]] + remove_id(s.drop_first(), id)
    }
}

/// The sequence with every record of the item's id replaced by the item.
pub open spec fn update_spec(s: Seq<ItemView>, v: ItemView) -> Seq<ItemView> {
    s.map_values(
        |i: ItemView|
            if i.id == v.id {
                v
            } else {
                i
            },
    )
}

/// The sequence with the given id's status set, and its update stamp moved
/// to the writer's clock.
pub open spec fn archive_spec(s: Seq<ItemView>, id: Seq<char>, archived: bool, now: Seq<char>)
    -> Seq<ItemView> {
    s.map_values(
        |i: ItemView|
            if i.id == id {
                ItemView {
                    status: if archived {
                        Status::Archived
                    } else {
                        Status::Active
                    },
                    updated_at: now,
                    ..i
                }
            } else {
                i
            },
    )
}

/// Deleting an id a second time changes nothing: delete is idempotent.
pub proof fn lemma_delete_idempotent(s: Seq<ItemView>, id: Seq<char>)
    ensures
        remove_id(remove_id(s, id), id) == remove_id(s, id),
    decreases s.len(),
{
    if s.len() == 0 {
    } else if s[0].id == id {
        lemma_delete_idempotent(s.drop_first(), id);
    } else {
        lemma_delete_idempotent(s.drop_first(), id);
        let r = remove_id(s.drop_first(), id);
        assert((seq![s[0]] + r)[0] == s[0]);
        assert((seq![s[0]] + r).drop_first() =~= r);
        assert(remove_id(seq![s[0]] + r, id) == seq![s[0]] + remove_id(r, id));
    }
}

/// Archiving and unarchiving an id restores its active status, never touches
/// any other record or any other field, and moves the update stamp to each
/// call's clock in turn.
pub proof fn lemma_archive_toggle(
    s: Seq<ItemView>,
    id: Seq<char>,
    t1: Seq<char>,
    t2: Seq<char>,
)
    ensures
        ({
            let s2 = archive_spec(archive_spec(s, id, true, t1), id, false, t2);
            &&& s2.len() == s.len()
            &&& forall|k: int|
                0 <= k < s.len() && s[k].id == id ==> s2[k] == (ItemView {
                    status: Status::Active,
                    updated_at: t2,
                    ..s[k]
                })
            &&& forall|k: int| 0 <= k < s.len() && s[k].id != id ==> s2[k] == s[k]
        }),
{
    let s1 = archive_spec(s, id, true, t1);
    let s2 = archive_spec(s1, id, false, t2);
    assert forall|k: int| 0 <= k < s.len() && s[k].id == id implies s2[k] == (ItemView {
        status: Status::Active,
        updated_at: t2,
        ..s[k]
    }) by {
        assert(s1[k] == (ItemView { status: Status::Archived, updated_at: t1, ..s[k] }));
    }
}

/// Each archive call stamps the writer's clock on every record of the id
/// and touches nothing else; a clock strictly above a record's stored
/// stamp strictly advances it, lexicographically, which is the canonical
/// timestamps' chronological order under one offset.
pub proof fn lemma_archive_advances_stamp(
    s: Seq<ItemView>,
    id: Seq<char>,
    archived: bool,
    now: Seq<char>,
)
    requires
        forall|k: int|
            0 <= k < s.len() && (#[trigger] s[k]).id == id ==> lex_le(s[k].updated_at, now)
                && s[k].updated_at != now,
    ensures
        forall|k: int|
            0 <= k < s.len() && (#[trigger] s[k]).id == id ==> ({
                let r = archive_spec(s, id, archived, now);
                &&& r[k].updated_at == now
                &&& lex_le(s[k].updated_at, r[k].updated_at)
                &&& r[k].updated_at != s[k].updated_at
            }),
{
}

/// A file-backed store of memory items.  The backing file's content is
/// loaded and rendered as a whole; the caller moves it to and from disk.
pub struct JsonlMemoryStore {
    path: String,
    items: Vec<MemoryItem>,
}

impl View for JsonlMemoryStore {
    type V = Seq<ItemView>;

    closed spec fn view(&self) -> Seq<ItemView> {
        items_view(self.items@)
    }
}

impl JsonlMemoryStore {
    /// The path the caller gave for the backing file.
    pub closed spec fn path_spec(&self) -> Seq<char> {
        self.path@
    }

    /// An empty store that will write to the given path.
    pub fn new(path: String) -> (r: JsonlMemoryStore)
        ensures
            r@ == Seq::<ItemView>::empty(),
            r.path_spec() == path@,
    {
        let r = JsonlMemoryStore { path, items: Vec::new() };
        proof {
            assert(r@ =~= Seq::<ItemView>::empty());
        }
        r
    }

    /// A store holding whatever records the given file content carries.
    pub fn from_content(path: String, content: &str) -> (r: JsonlMemoryStore)
        ensures
            r@ == read_items(line_split(content@)),
            r.path_spec() == path@,
    {
        let cs = str_to_chars(content);
        let lines = split_lines_chars(&cs);
        let (items, _) = read_items_exec(&lines);
        JsonlMemoryStore { path, items }
    }

    /// The path of the backing file.
    pub fn path(&self) -> (r: &String)
        ensures
            r@ == self.path_spec(),
    {
        &self.path
    }

    /// The file content for the current records: one per line, each line
    /// closed by a newline, no blanks.
    pub fn content(&self) -> (r: String)
        ensures
            r@ == render_items(self@),
    {
        let cs = render_items_exec(&self.items);
        chars_to_string(&cs)
    }

    /// The record line that `add` appends to the backing file.
    pub fn encoded_line(item: &MemoryItem) -> (r: String)
        ensures
            r@ == enc_item(item@) + seq!['\n'],
    {
        let mut cs = encode_item(item);
        cs.push('\n');
        chars_to_string(&cs)
    }

    /// Appends an item.  The file backend appends, so a duplicate id stays
    /// until the next rewrite and the newest record wins on read.
    pub fn add(&mut self, item: MemoryItem)
        ensures
            final(self)@ == old(self)@.push(item@),
            final(self).path_spec() == old(self).path_spec(),
    {
        let ghost prev = self@;
        self.items.push(item);
        proof {
            assert(self@ =~= prev.push(item@));
        }
    }

    /// Whether a record with the given id is present.
    pub fn has_record(&self, id: &str) -> (r: bool)
        ensures
            r == has_id(self@, id@),
    {
        proof {
            assert(self@.skip(0) =~= self@);
        }
        has_id_from(&self.items, id, 0)
    }

    /// Appends a fresh item, or errs with `Conflict` when a record of its
    /// id is already present, leaving the store unchanged: the add of a
    /// backend that enforces primary keys.
    pub fn add_unique(&mut self, item: MemoryItem) -> (r: Result<(), StoreError>)
        ensures
            final(self).path_spec() == old(self).path_spec(),
            match r {
                Ok(()) => !has_id(old(self)@, item@.id) && final(self)@ == old(self)@.push(item@),
                Err(e) => e == StoreError::Conflict && has_id(old(self)@, item@.id) && final(self)@
                    == old(self)@,
            },
    {
        if self.has_record(item.id.as_str()) {
            Err(StoreError::Conflict)
        } else {
            self.add(item);
            Ok(())
        }
    }

    /// The newest record with the given id, if any.
    pub fn get(&self, id: &str) -> (r: Option<MemoryItem>)
        ensures
            match r {
                Some(item) => get_spec(self@, id@) == Some(item@),
                None => get_spec(self@, id@) is None,
            },
    {
        let ghost s = self@;
        let mut best: Option<MemoryItem> = None;
        let mut i: usize = 0;
        proof {
            assert(s.skip(0) =~= s);
        }
        while i < self.items.len()
            invariant
                i <= self.items@.len(),
                s == self@,
                s.len() == self.items@.len(),
                match best {
                    Some(b) => b@.id == id@ && (has_id(s.skip(i as int), id@) ==> get_spec(s, id@)
                        == get_spec(s.skip(i as int), id@)) && (!has_id(s.skip(i as int), id@)
                        ==> get_spec(s, id@) == Some(b@)),
                    None => get_spec(s, id@) == get_spec(s.skip(i as int), id@) && !(exists|k: int|
                        0 <= k < i && (#[trigger] s[k]).id == id@),
                },
            decreases self.items@.len() - i,
        {
            proof {
                assert(s.skip(i as int)[0] == s[i as int]);
                assert(s.skip(i as int).drop_first() =~= s.skip((i + 1) as int));
                if has_id(s.skip((i + 1) as int), id@) {
                    assert(has_id(s.skip(i as int), id@)) by {
                        let k = choose|k: int|
                            0 <= k < s.skip((i + 1) as int).len() && #[trigger] s.skip(
                                (i + 1) as int,
                            )[k].id == id@;
                        assert(s.skip(i as int)[k + 1].id == id@);
                    }
                }
            }
            if str_eq(self.items[i].id.as_str(), id) {
                best = Some(self.items[i].duplicate());
                proof {
                    assert(has_id(s.skip(i as int), id@)) by {
                        assert(s.skip(i as int)[0].id == id@);
                    }
                }
            } else {
                proof {
                    assert(s[i as int] == self.items@[i as int]@);
                    assert(s[i as int].id != id@);
                    if has_id(s.skip(i as int), id@) {
                        assert(has_id(s.skip((i + 1) as int), id@)) by {
                            let k = choose|k: int|
                                0 <= k < s.skip(i as int).len() && #[trigger] s.skip(
                                    i as int,
                                )[k].id == id@;
                            assert(s.skip(i as int)[0] == s[i as int]);
                            assert(k != 0);
                            assert(s.skip((i + 1) as int)[k - 1].id == id@);
                        }
                    }
                }
            }
            i = i + 1;
        }
        proof {
            assert(s.skip(s.len() as int).len() == 0);
            assert(!has_id(s.skip(s.len() as int), id@));
        }
        best
    }

    /// Drops every record with the given id; absent ids are a no-op.
    pub fn delete(&mut self, id: &str)
        ensures
            final(self)@ == remove_id(old(self)@, id@),
            final(self).path_spec() == old(self).path_spec(),
    {
        let ghost s = self@;
        let mut out: Vec<MemoryItem> = Vec::new();
        let mut i: usize = 0;
        proof {
            assert(s.skip(0) =~= s);
            assert(items_view(out@) + remove_id(s, id@) =~= remove_id(s, id@));
        }
        while i < self.items.len()
            invariant
                i <= self.items@.len(),
                s == self@,
                s.len() == self.items@.len(),
                remove_id(s, id@) == items_view(out@) + remove_id(s.skip(i as int), id@),
            decreases self.items@.len() - i,
        {
            proof {
                assert(s.skip(i as int)[0] == s[i as int]);
                assert(s.skip(i as int).drop_first() =~= s.skip((i + 1) as int));
            }
            if !str_eq(self.items[i].id.as_str(), id) {
                let ghost prev = items_view(out@);
                out.push(self.items[i].duplicate());
                proof {
                    assert(items_view(out@) =~= prev.push(s[i as int]));
                    assert(prev + (seq![s[i as int]] + remove_id(s.skip((i + 1) as int), id@))
                        =~= items_view(out@) + remove_id(s.skip((i + 1) as int), id@));
                }
            }
            i = i + 1;
        }
        proof {
            assert(s.skip(s.len() as int).len() == 0);
            assert(items_view(out@) + remove_id(s.skip(s.len() as int), id@) =~= items_view(out@));
        }
        self.items = out;
    }

    /// Replaces every record of the item's id; errs when the id is absent.
    pub fn update(&mut self, item: &MemoryItem) -> (r: Result<(), StoreError>)
        ensures
            final(self).path_spec() == old(self).path_spec(),
            match r {
                Ok(()) => has_id(old(self)@, item@.id) && final(self)@ == update_spec(
                    old(self)@,
                    item@,
                ),
                Err(e) => e == StoreError::NotFound && !has_id(old(self)@, item@.id)
                    && final(self)@ == old(self)@,
            },
    {
        let ghost s = self@;
        let mut out: Vec<MemoryItem> = Vec::new();
        let mut found = false;
        let mut i: usize = 0;
        while i < self.items.len()
            invariant
                i <= self.items@.len(),
                s == self@,
                s.len() == self.items@.len(),
                items_view(out@).len() == i,
                forall|k: int|
                    0 <= k < i ==> items_view(out@)[k] == (if s[k].id == item@.id {
                        item@
                    } else {
                        s[k]
                    }),
                found == exists|k: int| 0 <= k < i && #[trigger] s[k].id == item@.id,
            decreases self.items@.len() - i,
        {
            if str_eq(self.items[i].id.as_str(), item.id.as_str()) {
                let ghost prev = items_view(out@);
                out.push(item.duplicate());
                found = true;
                proof {
                    assert(s[i as int].id == item@.id);
                    assert(items_view(out@) =~= prev.push(item@));
                }
            } else {
                let ghost prev = items_view(out@);
                out.push(self.items[i].duplicate());
                proof {
                    assert(s[i as int].id != item@.id);
                    assert(items_view(out@) =~= prev.push(s[i as int]));
                }
            }
            i = i + 1;
        }
        if found {
            self.items = out;
            proof {
                assert(self@ =~= update_spec(s, item@));
            }
            Ok(())
        } else {
            Err(StoreError::NotFound)
        }
    }

    /// Sets the status of the given id, stamping the writer's clock; errs
    /// when the id is absent.
    pub fn archive(&mut self, id: &str, archived: bool, now: &str) -> (r: Result<(), StoreError>)
        ensures
            final(self).path_spec() == old(self).path_spec(),
            match r {
                Ok(()) => has_id(old(self)@, id@) && final(self)@ == archive_spec(
                    old(self)@,
                    id@,
                    archived,
                    now@,
                ),
                Err(e) => e == StoreError::NotFound && !has_id(old(self)@, id@) && final(self)@
                    == old(self)@,
            },
    {
        let ghost s = self@;
        let mut out: Vec<MemoryItem> = Vec::new();
        let mut found = false;
        let mut i: usize = 0;
        while i < self.items.len()
            invariant
                i <= self.items@.len(),
                s == self@,
                s.len() == self.items@.len(),
                items_view(out@).len() == i,
                forall|k: int|
                    0 <= k < i ==> items_view(out@)[k] == (if s[k].id == id@ {
                        ItemView {
                            status: if archived {
                                Status::Archived
                            } else {
                                Status::Active
                            },
                            updated_at: now@,
                            ..s[k]
                        }
                    } else {
                        s[k]
                    }),
                found == exists|k: int| 0 <= k < i && #[trigger] s[k].id == id@,
            decreases self.items@.len() - i,
        {
            if str_eq(self.items[i].id.as_str(), id) {
                let mut it = self.items[i].duplicate();
                it.status = if archived {
                    Status::Archived
                } else {
                    Status::Active
                };
                it.updated_at = now.to_owned();
                let ghost prev = items_view(out@);
                out.push(it);
                found = true;
                proof {
                    assert(s[i as int].id == id@);
                    assert(items_view(out@) =~= prev.push(
                        ItemView {
                            status: if archived {
                                Status::Archived
                            } else {
                                Status::Active
                            },
                            updated_at: now@,
                            ..s[i as int]
                        },
                    ));
                }
            } else {
                let ghost prev = items_view(out@);
                out.push(self.items[i].duplicate());
                proof {
                    assert(s[i as int].id != id@);
                    assert(items_view(out@) =~= prev.push(s[i as int]));
                }
            }
            i = i + 1;
        }
        if found {
            self.items = out;
            proof {
                assert(self@ =~= archive_spec(s, id@, archived, now@));
            }
            Ok(())
        } else {
            Err(StoreError::NotFound)
        }
    }
}


/// Pairwise: every later record's update stamp orders at or below every
/// earlier one's.
pub open spec fn sorted_desc(s: Seq<ItemView>) -> bool {
    forall|i: int, j: int|
        0 <= i < j < s.len() ==> lex_le(#[trigger] s[j].updated_at, #[trigger] s[i].updated_at)
}

/// Places a record behind every record whose stamp is at or above its own:
/// stable descending insertion.
pub open spec fn insert_desc(x: ItemView, s: Seq<ItemView>) -> Seq<ItemView>
    decreases s.len(),
{
    if s.len() == 0 {
        seq![x]
    } else if lex_le(x.updated_at, s[0].updated_at) {
        seq![s[0]] + insert_desc(x, s.drop_first())
    } else {
        seq![x] + s
    }
}

/// Stable sort by update stamp, newest first.
pub open spec fn sort_desc(s: Seq<ItemView>) -> Seq<ItemView>
    decreases s.len(),
{
    if s.len() == 0 {
        Seq::empty()
    } else {
        insert_desc(s.last(), sort_desc(s.drop_last()))
    }
}

/// Insertion adds exactly the one record.
pub proof fn lemma_insert_desc_multiset(x: ItemView, s: Seq<ItemView>)
    ensures
        insert_desc(x, s).to_multiset() == s.to_multiset().insert(x),
        insert_desc(x, s).len() == s.len() + 1,
    decreases s.len(),
{
    broadcast use vstd::seq_lib::group_to_multiset_ensures;

    if s.len() == 0 {
        assert(seq![x] =~= Seq::<ItemView>::empty().push(x));
        assert(Seq::<ItemView>::empty().push(x).to_multiset() =~= Seq::<
            ItemView,
        >::empty().to_multiset().insert(x));
        assert(s.to_multiset() =~= Seq::<ItemView>::empty().to_multiset());
    } else if lex_le(x.updated_at, s[0].updated_at) {
        lemma_insert_desc_multiset(x, s.drop_first());
        let r = insert_desc(x, s.drop_first());
        vstd::seq_lib::lemma_multiset_commutative(seq![s[0]], r);
        vstd::seq_lib::lemma_multiset_commutative(seq![s[0]], s.drop_first());
        assert(seq![s[0]] + s.drop_first() =~= s);
        assert((seq![s[0]] + r).to_multiset() =~= s.to_multiset().insert(x));
    } else {
        vstd::seq_lib::lemma_multiset_commutative(seq![x], s);
        assert((seq![x] + s).to_multiset() =~= s.to_multiset().insert(x));
    }
}

/// Insertion into a sorted sequence keeps it sorted.
pub proof fn lemma_insert_desc_sorted(x: ItemView, s: Seq<ItemView>)
    requires
        sorted_desc(s),
    ensures
        sorted_desc(insert_desc(x, s)),
    decreases s.len(),
{
    broadcast use vstd::seq_lib::group_to_multiset_ensures;

    if s.len() == 0 {
    } else if lex_le(x.updated_at, s[0].updated_at) {
        assert(sorted_desc(s.drop_first()));
        lemma_insert_desc_sorted(x, s.drop_first());
        lemma_insert_desc_multiset(x, s.drop_first());
        let t = insert_desc(x, s.drop_first());
        let r = seq![s[0]] + t;
        assert forall|i: int, j: int| 0 <= i < j < r.len() implies lex_le(
            #[trigger] r[j].updated_at,
            #[trigger] r[i].updated_at,
        ) by {
            if i == 0 {
                let e = r[j];
                assert(t[j - 1] == e);
                assert(t.contains(e));
                assert(t.to_multiset().count(e) > 0);
                if e == x {
                    assert(lex_le(e.updated_at, s[0].updated_at));
                } else {
                    assert(s.drop_first().to_multiset().count(e) > 0);
                    assert(s.drop_first().contains(e));
                    let k = choose|k: int|
                        0 <= k < s.drop_first().len() && s.drop_first()[k] == e;
                    assert(s[k + 1] == e);
                    assert(lex_le(e.updated_at, s[0].updated_at));
                }
            } else {
                assert(t[i - 1] == r[i] && t[j - 1] == r[j]);
            }
        }
    } else {
        crate::text::lemma_lex_le_total(x.updated_at, s[0].updated_at);
        let r = seq![x] + s;
        assert forall|i: int, j: int| 0 <= i < j < r.len() implies lex_le(
            #[trigger] r[j].updated_at,
            #[trigger] r[i].updated_at,
        ) by {
            if i == 0 {
                if j == 1 {
                    assert(r[j] == s[0]);
                } else {
                    assert(r[j] == s[j - 1]);
                    assert(lex_le(s[j - 1].updated_at, s[0].updated_at));
                    crate::text::lemma_lex_le_trans(
                        s[j - 1].updated_at,
                        s[0].updated_at,
                        x.updated_at,
                    );
                }
            } else {
                assert(r[i] == s[i - 1] && r[j] == s[j - 1]);
            }
        }
    }
}

/// Sorting permutes the records and orders them newest first.
pub proof fn lemma_sort_desc_ensures(s: Seq<ItemView>)
    ensures
        sorted_desc(sort_desc(s)),
        sort_desc(s).to_multiset() == s.to_multiset(),
        sort_desc(s).len() == s.len(),
    decreases s.len(),
{
    broadcast use vstd::seq_lib::group_to_multiset_ensures;

    if s.len() == 0 {
    } else {
        lemma_sort_desc_ensures(s.drop_last());
        lemma_insert_desc_sorted(s.last(), sort_desc(s.drop_last()));
        lemma_insert_desc_multiset(s.last(), sort_desc(s.drop_last()));
        assert(s.drop_last().push(s.last()) =~= s);
        assert(s.drop_last().push(s.last()).to_multiset() == s.drop_last().to_multiset().insert(
            s.last(),
        ));
    }
}

/// Whether each record id occurs at most once.
pub open spec fn unique_ids(s: Seq<ItemView>) -> bool {
    forall|i: int, j: int|
        0 <= i < j < s.len() ==> (#[trigger] s[i].id) != (#[trigger] s[j].id)
}

/// The ids found after an insertion are the inserted id and the old ones.
pub proof fn lemma_insert_desc_ids(x: ItemView, s: Seq<ItemView>)
    ensures
        forall|id: Seq<char>|
            #[trigger] has_id(insert_desc(x, s), id) <==> (id == x.id || has_id(s, id)),
    decreases s.len(),
{
    assert forall|id: Seq<char>| #[trigger]
        has_id(insert_desc(x, s), id) <==> (id == x.id || has_id(s, id)) by {
        if s.len() == 0 {
            assert(insert_desc(x, s)[0] == x);
            if has_id(insert_desc(x, s), id) {
                let k = choose|k: int|
                    0 <= k < insert_desc(x, s).len() && #[trigger] insert_desc(x, s)[k].id == id;
                assert(insert_desc(x, s)[k] == x);
            }
        } else if lex_le(x.updated_at, s[0].updated_at) {
            lemma_insert_desc_ids(x, s.drop_first());
            let t = insert_desc(x, s.drop_first());
            let r = seq![s[0]] + t;
            if has_id(r, id) {
                let k = choose|k: int| 0 <= k < r.len() && #[trigger] r[k].id == id;
                if k == 0 {
                    assert(s[0].id == id);
                } else {
                    assert(t[k - 1].id == id);
                    assert(has_id(t, id));
                    if id != x.id {
                        let m = choose|m: int|
                            0 <= m < s.drop_first().len() && #[trigger] s.drop_first()[m].id
                                == id;
                        assert(s[m + 1].id == id);
                    }
                }
            }
            if id == x.id {
                assert(has_id(t, id));
                let k = choose|k: int| 0 <= k < t.len() && #[trigger] t[k].id == id;
                assert(r[k + 1].id == id);
            }
            if has_id(s, id) {
                let k = choose|k: int| 0 <= k < s.len() && #[trigger] s[k].id == id;
                if k == 0 {
                    assert(r[0].id == id);
                } else {
                    assert(s.drop_first()[k - 1].id == id);
                    assert(has_id(s.drop_first(), id));
                    assert(has_id(t, id));
                    let m = choose|m: int| 0 <= m < t.len() && #[trigger] t[m].id == id;
                    assert(r[m + 1].id == id);
                }
            }
        } else {
            let r = seq![x] + s;
            if has_id(r, id) {
                let k = choose|k: int| 0 <= k < r.len() && #[trigger] r[k].id == id;
                if k == 0 {
                    assert(x.id == id);
                } else {
                    assert(s[k - 1].id == id);
                }
            }
            if id == x.id {
                assert(r[0].id == id);
            }
            if has_id(s, id) {
                let k = choose|k: int| 0 <= k < s.len() && #[trigger] s[k].id == id;
                assert(r[k + 1].id == id);
            }
        }
    }
}

/// Insertion of a fresh id keeps ids unique.
pub proof fn lemma_insert_desc_unique(x: ItemView, s: Seq<ItemView>)
    requires
        unique_ids(s),
        !has_id(s, x.id),
    ensures
        unique_ids(insert_desc(x, s)),
    decreases s.len(),
{
    if s.len() == 0 {
    } else if lex_le(x.updated_at, s[0].updated_at) {
        assert(unique_ids(s.drop_first()));
        assert forall|k: int| 0 <= k < s.drop_first().len() implies s.drop_first()[k].id
            != x.id by {
            assert(s[k + 1].id == s.drop_first()[k].id);
        }
        assert(!has_id(s.drop_first(), x.id));
        lemma_insert_desc_unique(x, s.drop_first());
        lemma_insert_desc_ids(x, s.drop_first());
        let t = insert_desc(x, s.drop_first());
        let r = seq![s[0]] + t;
        assert forall|i: int, j: int| 0 <= i < j < r.len() implies (#[trigger] r[i].id) != (
        #[trigger] r[j].id) by {
            if i == 0 {
                if r[j].id == s[0].id {
                    assert(t[j - 1].id == s[0].id);
                    assert(has_id(t, s[0].id));
                    assert(s[0].id != x.id);
                    let m = choose|m: int|
                        0 <= m < s.drop_first().len() && #[trigger] s.drop_first()[m].id == s[0].id;
                    assert(s[m + 1].id == s[0].id);
                }
            } else {
                assert(t[i - 1].id == r[i].id && t[j - 1].id == r[j].id);
            }
        }
    } else {
        let r = seq![x] + s;
        assert forall|i: int, j: int| 0 <= i < j < r.len() implies (#[trigger] r[i].id) != (
        #[trigger] r[j].id) by {
            if i == 0 {
                assert(r[j] == s[j - 1]);
                assert(s[j - 1].id != x.id);
            } else {
                assert(r[i] == s[i - 1] && r[j] == s[j - 1]);
            }
        }
    }
}

/// The ids found after sorting are the ids found before.
pub proof fn lemma_sort_desc_ids(s: Seq<ItemView>)
    ensures
        forall|id: Seq<char>| #[trigger] has_id(sort_desc(s), id) <==> has_id(s, id),
    decreases s.len(),
{
    if s.len() == 0 {
        assert forall|id: Seq<char>| #[trigger]
            has_id(sort_desc(s), id) <==> has_id(s, id) by {}
    } else {
        lemma_sort_desc_ids(s.drop_last());
        lemma_insert_desc_ids(s.last(), sort_desc(s.drop_last()));
        assert forall|id: Seq<char>| #[trigger]
            has_id(sort_desc(s), id) <==> has_id(s, id) by {
            if has_id(sort_desc(s), id) {
                if id == s.last().id {
                    assert(s[s.len() - 1].id == id);
                } else {
                    assert(has_id(s.drop_last(), id));
                    let k = choose|k: int|
                        0 <= k < s.drop_last().len() && #[trigger] s.drop_last()[k].id == id;
                    assert(s[k].id == id);
                }
            }
            if has_id(s, id) {
                let k = choose|k: int| 0 <= k < s.len() && #[trigger] s[k].id == id;
                if k == s.len() - 1 {
                    assert(id == s.last().id);
                } else {
                    assert(s.drop_last()[k].id == id);
                    assert(has_id(s.drop_last(), id));
                }
            }
        }
    }
}

/// Sorting keeps ids unique.
pub proof fn lemma_sort_desc_unique(s: Seq<ItemView>)
    requires
        unique_ids(s),
    ensures
        unique_ids(sort_desc(s)),
    decreases s.len(),
{
    if s.len() == 0 {
    } else {
        assert(unique_ids(s.drop_last()));
        lemma_sort_desc_unique(s.drop_last());
        lemma_sort_desc_ids(s.drop_last());
        assert forall|k: int| 0 <= k < s.drop_last().len() implies s.drop_last()[k].id
            != s.last().id by {
            assert(s[k].id == s.drop_last()[k].id);
            assert(s[s.len() - 1].id == s.last().id);
        }
        assert(!has_id(s.drop_last(), s.last().id));
        assert(!has_id(sort_desc(s.drop_last()), s.last().id));
        lemma_insert_desc_unique(s.last(), sort_desc(s.drop_last()));
    }
}

/// A record at or below a whole sorted sequence inserts at its end.
pub proof fn lemma_insert_desc_at_end(x: ItemView, s: Seq<ItemView>)
    requires
        forall|k: int| 0 <= k < s.len() ==> lex_le(x.updated_at, (#[trigger] s[k]).updated_at),
    ensures
        insert_desc(x, s) == s.push(x),
    decreases s.len(),
{
    if s.len() == 0 {
        assert(insert_desc(x, s) =~= s.push(x));
    } else {
        assert forall|k: int| 0 <= k < s.drop_first().len() implies lex_le(
            x.updated_at,
            (#[trigger] s.drop_first()[k]).updated_at,
        ) by {
            assert(s.drop_first()[k] == s[k + 1]);
        }
        lemma_insert_desc_at_end(x, s.drop_first());
        assert(seq![s[0]] + s.drop_first().push(x) =~= s.push(x));
    }
}

/// Sorting an already sorted sequence changes nothing.
pub proof fn lemma_sort_desc_of_sorted(s: Seq<ItemView>)
    requires
        sorted_desc(s),
    ensures
        sort_desc(s) == s,
    decreases s.len(),
{
    if s.len() > 0 {
        assert(sorted_desc(s.drop_last()));
        lemma_sort_desc_of_sorted(s.drop_last());
        assert forall|k: int| 0 <= k < s.drop_last().len() implies lex_le(
            s.last().updated_at,
            (#[trigger] s.drop_last()[k]).updated_at,
        ) by {
            assert(s.drop_last()[k] == s[k]);
            assert(lex_le(s[s.len() - 1].updated_at, s[k].updated_at));
        }
        lemma_insert_desc_at_end(s.last(), s.drop_last());
        assert(s.drop_last().push(s.last()) =~= s);
    }
}

/// Inserts a record into a vector kept sorted newest first.
fn insert_sorted(out: &mut Vec<MemoryItem>, item: MemoryItem)
    ensures
        items_view(final(out)@) == insert_desc(item@, items_view(old(out)@)),
{
    let ghost s = items_view(out@);
    let mut j: usize = 0;
    proof {
        assert(s.skip(0) =~= s);
    }
    while j < out.len() && str_le(item.updated_at.as_str(), out[j].updated_at.as_str())
        invariant
            j <= out@.len(),
            s == items_view(out@),
            s.len() == out@.len(),
            insert_desc(item@, s) == s.take(j as int) + insert_desc(item@, s.skip(j as int)),
        decreases out@.len() - j,
    {
        proof {
            assert(s.skip(j as int)[0] == s[j as int]);
            assert(s.skip(j as int).drop_first() =~= s.skip((j + 1) as int));
            assert(s.take(j as int) + (seq![s[j as int]] + insert_desc(
                item@,
                s.skip((j + 1) as int),
            )) =~= s.take((j + 1) as int) + insert_desc(item@, s.skip((j + 1) as int)));
        }
        j = j + 1;
    }
    proof {
        if j < out@.len() {
            assert(s.skip(j as int)[0] == s[j as int]);
            assert(insert_desc(item@, s.skip(j as int)) == seq![item@] + s.skip(j as int));
        } else {
            assert(s.skip(j as int).len() == 0);
            assert(insert_desc(item@, s.skip(j as int)) == seq![item@]);
            assert(seq![item@] =~= seq![item@] + s.skip(j as int));
        }
    }
    out.insert(j, item);
    proof {
        assert(items_view(out@) =~= s.take(j as int) + (seq![item@] + s.skip(j as int)));
    }
}

/// Sorts records by update stamp, newest first, keeping the stored order of
/// records whose stamps tie.
fn sort_items(items: &Vec<MemoryItem>) -> (r: Vec<MemoryItem>)
    ensures
        items_view(r@) == sort_desc(items_view(items@)),
{
    let ghost iv = items_view(items@);
    let mut out: Vec<MemoryItem> = Vec::new();
    let mut i: usize = 0;
    proof {
        assert(iv.take(0) =~= Seq::<ItemView>::empty());
        assert(items_view(out@) =~= Seq::<ItemView>::empty());
    }
    while i < items.len()
        invariant
            i <= items@.len(),
            iv == items_view(items@),
            iv.len() == items@.len(),
            items_view(out@) == sort_desc(iv.take(i as int)),
        decreases items@.len() - i,
    {
        insert_sorted(&mut out, items[i].duplicate());
        proof {
            assert(iv.take((i + 1) as int).last() == iv[i as int]);
            assert(iv.take((i + 1) as int).drop_last() =~= iv.take(i as int));
        }
        i = i + 1;
    }
    proof {
        assert(iv.take(iv.len() as int) =~= iv);
    }
    out
}

/// Whether a record passes the optional scope and status filters.
pub open spec fn keep(i: ItemView, scope: Option<Scope>, status: Option<Status>) -> bool {
    (match scope {
        Some(sc) => i.scope == sc,
        None => true,
    }) && (match status {
        Some(st) => i.status == st,
        None => true,
    })
}

/// The records passing the optional scope and status filters, in stored
/// order.
pub open spec fn filter_items(s: Seq<ItemView>, scope: Option<Scope>, status: Option<Status>)
    -> Seq<ItemView> {
    s.filter(|i: ItemView| keep(i, scope, status))
}

/// Reads whether a record passes the filters.
fn keep_exec(item: &MemoryItem, scope: Option<Scope>, status: Option<Status>) -> (r: bool)
    ensures
        r == keep(item@, scope, status),
{
    let scope_ok = match scope {
        Some(sc) => item.scope == sc,
        None => true,
    };
    let status_ok = match status {
        Some(st) => item.status == st,
        None => true,
    };
    scope_ok && status_ok
}


impl JsonlMemoryStore {
    /// The records of the read view passing the filters, ordered newest
    /// first by update stamp, ties keeping their stored order.
    pub fn list(&self, scope: Option<Scope>, status: Option<Status>) -> (r: Vec<MemoryItem>)
        ensures
            items_view(r@) == sort_desc(filter_items(lww(self@), scope, status)),
    {
        let base = dedup_lww(&self.items);
        let ghost s = lww(self@);
        let mut picked: Vec<MemoryItem> = Vec::new();
        let mut i: usize = 0;
        proof {
            reveal(Seq::filter);
            assert(s.take(0) =~= Seq::<ItemView>::empty());
            assert(items_view(picked@) =~= filter_items(s.take(0), scope, status));
        }
        while i < base.len()
            invariant
                i <= base@.len(),
                s == lww(self@),
                s == items_view(base@),
                s.len() == base@.len(),
                items_view(picked@) == filter_items(s.take(i as int), scope, status),
            decreases base@.len() - i,
        {
            proof {
                reveal(Seq::filter);
                assert(s.take((i + 1) as int).drop_last() =~= s.take(i as int));
                assert(s.take((i + 1) as int).last() == s[i as int]);
            }
            if keep_exec(&base[i], scope, status) {
                let ghost prev = items_view(picked@);
                picked.push(base[i].duplicate());
                proof {
                    assert(items_view(picked@) =~= prev.push(s[i as int]));
                }
            }
            i = i + 1;
        }
        proof {
            assert(s.take(s.len() as int) =~= s);
        }
        sort_items(&picked)
    }

    /// The exported text: the read view's records, newest first, one per
    /// line.
    pub fn export(&self) -> (r: String)
        ensures
            r@ == render_items(sort_desc(lww(self@))),
    {
        let base = dedup_lww(&self.items);
        let sorted = sort_items(&base);
        let cs = render_items_exec(&sorted);
        chars_to_string(&cs)
    }

    /// Reads records from the given text and folds them, together with the
    /// store's own records, into one keyed read: the last record of each id
    /// wins, incoming records standing behind stored ones.  Leaves the
    /// store sorted newest first and returns how many records parsed; blank
    /// and malformed lines are passed over.
    pub fn import(&mut self, content: &str) -> (r: usize)
        ensures
            final(self)@ == sort_desc(
                lww(old(self)@ + read_items(line_split(content@))),
            ),
            r == read_count(line_split(content@)),
            final(self).path_spec() == old(self).path_spec(),
    {
        let cs = str_to_chars(content);
        let lines = split_lines_chars(&cs);
        let (mut incoming, count) = read_items_exec(&lines);
        let ghost inc = items_view(incoming@);
        let ghost orig = self@;
        self.items.append(&mut incoming);
        proof {
            assert(items_view(self.items@) =~= orig + inc);
        }
        let merged = dedup_lww(&self.items);
        let sorted = sort_items(&merged);
        self.items = sorted;
        count
    }

    /// Totals over the read view: all records, by status, and by scope.
    pub fn stats(&self) -> (r: Stats)
        ensures
            r.total == lww(self@).len(),
            r.active == filter_items(lww(self@), None, Some(Status::Active)).len(),
            r.archived == filter_items(lww(self@), None, Some(Status::Archived)).len(),
            r.by_scope.global == filter_items(lww(self@), Some(Scope::Global), None).len(),
            r.by_scope.repo == filter_items(lww(self@), Some(Scope::Repo), None).len(),
            r.by_scope.dir == filter_items(lww(self@), Some(Scope::Dir), None).len(),
    {
        let base = dedup_lww(&self.items);
        let ghost s = lww(self@);
        let mut active: usize = 0;
        let mut archived: usize = 0;
        let mut g: usize = 0;
        let mut rp: usize = 0;
        let mut d: usize = 0;
        let mut i: usize = 0;
        proof {
            reveal(Seq::filter);
            assert(s.take(0) =~= Seq::<ItemView>::empty());
        }
        while i < base.len()
            invariant
                i <= base@.len(),
                s == lww(self@),
                s == items_view(base@),
                s.len() == base@.len(),
                active == filter_items(s.take(i as int), None, Some(Status::Active)).len(),
                archived == filter_items(s.take(i as int), None, Some(Status::Archived)).len(),
                g == filter_items(s.take(i as int), Some(Scope::Global), None).len(),
                rp == filter_items(s.take(i as int), Some(Scope::Repo), None).len(),
                d == filter_items(s.take(i as int), Some(Scope::Dir), None).len(),
                active <= i && archived <= i && g <= i && rp <= i && d <= i,
            decreases base@.len() - i,
        {
            proof {
                reveal(Seq::filter);
                assert(s.take((i + 1) as int).drop_last() =~= s.take(i as int));
                assert(s.take((i + 1) as int).last() == s[i as int]);
                assert(s[i as int] == base@[i as int]@);
            }
            match base[i].status {
                Status::Active => {
                    active = active + 1;
                },
                Status::Archived => {
                    archived = archived + 1;
                },
            }
            match base[i].scope {
                Scope::Global => {
                    g = g + 1;
                },
                Scope::Repo => {
                    rp = rp + 1;
                },
                Scope::Dir => {
                    d = d + 1;
                },
            }
            i = i + 1;
        }
        proof {
            assert(s.take(s.len() as int) =~= s);
        }
        Stats {
            total: base.len(),
            active,
            archived,
            by_scope: ScopeCounts { global: g, repo: rp, dir: d },
        }
    }
}

/// What `export` writes for a store's records.
pub open spec fn export_content(s: Seq<ItemView>) -> Seq<char> {
    render_items(sort_desc(lww(s)))
}

/// What an empty store holds after `import` of the given text.
pub open spec fn import_into_empty(content: Seq<char>) -> Seq<ItemView> {
    sort_desc(lww(read_items(line_split(content))))
}

/// The list a store returns is exactly the filter of its records by scope
/// and status, ordered by update stamp descending.
pub proof fn lemma_list_is_sorted_filter(
    s: Seq<ItemView>,
    scope: Option<Scope>,
    status: Option<Status>,
)
    ensures
        sorted_desc(sort_desc(filter_items(s, scope, status))),
        sort_desc(filter_items(s, scope, status)).to_multiset() == filter_items(
            s,
            scope,
            status,
        ).to_multiset(),
{
    lemma_sort_desc_ensures(filter_items(s, scope, status));
}


/// Whether a sequence is free of newlines: such a sequence stays on one
/// line of the backing file.
pub open spec fn no_nl(s: Seq<char>) -> bool {
    forall|k: int| 0 <= k < s.len() ==> (#[trigger] s[k]) != '\n'
}

/// Two newline-free sequences concatenate to a newline-free sequence.
proof fn lemma_no_nl_concat(a: Seq<char>, b: Seq<char>)
    requires
        no_nl(a),
        no_nl(b),
    ensures
        no_nl(a + b),
{
    assert forall|k: int| 0 <= k < (a + b).len() implies ((a + b)[k]) != '\n' by {
        if k < a.len() {
            assert((a + b)[k] == a[k]);
        } else {
            assert((a + b)[k] == b[k - a.len()]);
        }
    }
}

/// Character escapes never hold a raw newline.
proof fn lemma_esc_char_no_nl(c: char)
    ensures
        no_nl(esc_char(c)),
{
}

/// Escaped string contents never hold a raw newline.
proof fn lemma_esc_seq_no_nl(s: Seq<char>)
    ensures
        no_nl(esc_seq(s)),
    decreases s.len(),
{
    if s.len() > 0 {
        lemma_esc_char_no_nl(s[0]);
        lemma_esc_seq_no_nl(s.drop_first());
        lemma_no_nl_concat(esc_char(s[0]), esc_seq(s.drop_first()));
    }
}

/// Quoted strings never hold a raw newline.
proof fn lemma_enc_str_no_nl(s: Seq<char>)
    ensures
        no_nl(enc_str(s)),
{
    lemma_esc_seq_no_nl(s);
    lemma_no_nl_concat(seq!['"'], esc_seq(s));
    lemma_no_nl_concat(seq!['"'] + esc_seq(s), seq!['"']);
}

/// Decimal digits never hold a newline.
proof fn lemma_digits_no_nl(n: u64)
    ensures
        no_nl(digits(n)),
    decreases n,
{
    if n >= 10 {
        lemma_digits_no_nl(n / 10);
    }
}

/// Encoded string arrays never hold a raw newline.
proof fn lemma_enc_str_array_no_nl(a: Seq<Seq<char>>)
    ensures
        no_nl(enc_str_array(a)),
{
    lemma_enc_str_items_no_nl(a);
    lemma_no_nl_concat(seq!['['], enc_str_items(a));
    lemma_no_nl_concat(seq!['['] + enc_str_items(a), seq![']']);
}

/// Encoded array items never hold a raw newline.
proof fn lemma_enc_str_items_no_nl(a: Seq<Seq<char>>)
    ensures
        no_nl(enc_str_items(a)),
    decreases a.len(),
{
    if a.len() == 0 {
    } else if a.len() == 1 {
        lemma_enc_str_no_nl(a[0]);
    } else {
        lemma_enc_str_no_nl(a[0]);
        lemma_enc_str_items_no_nl(a.drop_first());
        lemma_no_nl_concat(enc_str(a[0]), seq![',']);
        lemma_no_nl_concat(enc_str(a[0]) + seq![','], enc_str_items(a.drop_first()));
    }
}

/// Optional strings never hold a raw newline.
proof fn lemma_enc_opt_str_no_nl(o: Option<Seq<char>>)
    ensures
        no_nl(enc_opt_str(o)),
{
    reveal_strlit("null");
    match o {
        None => {
            assert(no_nl("null"@));
        },
        Some(s) => {
            lemma_enc_str_no_nl(s);
        },
    }
}

/// Optional numbers never hold a newline.
proof fn lemma_enc_opt_u64_no_nl(o: Option<u64>)
    ensures
        no_nl(enc_opt_u64(o)),
{
    reveal_strlit("null");
    match o {
        None => {
            assert(no_nl("null"@));
        },
        Some(n) => {
            lemma_digits_no_nl(n);
        },
    }
}

/// The leading fields of an encoded item hold no newline.
proof fn lemma_enc_item_a_no_nl(v: ItemView)
    ensures
        no_nl(enc_item_a(v)),
{
    reveal_strlit("{\"id\":");
    reveal_strlit(",\"created_at\":");
    reveal_strlit(",\"updated_at\":");
    reveal_strlit(",\"schema_version\":");
    assert(no_nl("{\"id\":"@));
    assert(no_nl(",\"created_at\":"@));
    assert(no_nl(",\"updated_at\":"@));
    assert(no_nl(",\"schema_version\":"@));
    lemma_enc_str_no_nl(v.id);
    lemma_enc_str_no_nl(v.created_at);
    lemma_enc_str_no_nl(v.updated_at);
    lemma_digits_no_nl(v.schema_version as u64);
    lemma_no_nl_concat("{\"id\":"@, enc_str(v.id));
    lemma_no_nl_concat("{\"id\":"@ + enc_str(v.id), ",\"created_at\":"@);
    lemma_no_nl_concat(
        "{\"id\":"@ + enc_str(v.id) + ",\"created_at\":"@,
        enc_str(v.created_at),
    );
    lemma_no_nl_concat(
        "{\"id\":"@ + enc_str(v.id) + ",\"created_at\":"@ + enc_str(v.created_at),
        ",\"updated_at\":"@,
    );
    lemma_no_nl_concat(
        "{\"id\":"@ + enc_str(v.id) + ",\"created_at\":"@ + enc_str(v.created_at)
            + ",\"updated_at\":"@,
        enc_str(v.updated_at),
    );
    lemma_no_nl_concat(
        "{\"id\":"@ + enc_str(v.id) + ",\"created_at\":"@ + enc_str(v.created_at)
            + ",\"updated_at\":"@ + enc_str(v.updated_at),
        ",\"schema_version\":"@,
    );
    lemma_no_nl_concat(
        "{\"id\":"@ + enc_str(v.id) + ",\"created_at\":"@ + enc_str(v.created_at)
            + ",\"updated_at\":"@ + enc_str(v.updated_at) + ",\"schema_version\":"@,
        digits(v.schema_version as u64),
    );
}

/// The middle fields of an encoded item hold no newline.
proof fn lemma_enc_item_b_no_nl(v: ItemView)
    ensures
        no_nl(enc_item_b(v)),
{
    reveal_strlit(",\"source\":");
    reveal_strlit(",\"scope\":");
    reveal_strlit(",\"status\":");
    reveal_strlit(",\"kind\":");
    reveal_strlit("\"global\"");
    reveal_strlit("\"repo\"");
    reveal_strlit("\"dir\"");
    reveal_strlit("\"active\"");
    reveal_strlit("\"archived\"");
    reveal_strlit("\"pref\"");
    reveal_strlit("\"fact\"");
    reveal_strlit("\"profile\"");
    reveal_strlit("\"instruction\"");
    reveal_strlit("\"note\"");
    assert(no_nl(",\"source\":"@));
    assert(no_nl(",\"scope\":"@));
    assert(no_nl(",\"status\":"@));
    assert(no_nl(",\"kind\":"@));
    assert(no_nl(scope_json(v.scope)));
    assert(no_nl(status_json(v.status)));
    assert(no_nl(kind_json(v.kind)));
    lemma_enc_str_no_nl(v.source);
    lemma_no_nl_concat(",\"source\":"@, enc_str(v.source));
    lemma_no_nl_concat(",\"source\":"@ + enc_str(v.source), ",\"scope\":"@);
    lemma_no_nl_concat(
        ",\"source\":"@ + enc_str(v.source) + ",\"scope\":"@,
        scope_json(v.scope),
    );
    lemma_no_nl_concat(
        ",\"source\":"@ + enc_str(v.source) + ",\"scope\":"@ + scope_json(v.scope),
        ",\"status\":"@,
    );
    lemma_no_nl_concat(
        ",\"source\":"@ + enc_str(v.source) + ",\"scope\":"@ + scope_json(v.scope)
            + ",\"status\":"@,
        status_json(v.status),
    );
    lemma_no_nl_concat(
        ",\"source\":"@ + enc_str(v.source) + ",\"scope\":"@ + scope_json(v.scope)
            + ",\"status\":"@ + status_json(v.status),
        ",\"kind\":"@,
    );
    lemma_no_nl_concat(
        ",\"source\":"@ + enc_str(v.source) + ",\"scope\":"@ + scope_json(v.scope)
            + ",\"status\":"@ + status_json(v.status) + ",\"kind\":"@,
        kind_json(v.kind),
    );
}

/// The hints object holds no newline.
proof fn lemma_enc_hints_no_nl(h: HintsView)
    ensures
        no_nl(enc_hints(h)),
{
    reveal_strlit("{\"files\":");
    reveal_strlit(",\"crates\":");
    reveal_strlit(",\"languages\":");
    reveal_strlit(",\"commands\":");
    reveal_strlit("}");
    assert(no_nl("{\"files\":"@));
    assert(no_nl(",\"crates\":"@));
    assert(no_nl(",\"languages\":"@));
    assert(no_nl(",\"commands\":"@));
    assert(no_nl("}"@));
    lemma_enc_str_array_no_nl(h.files);
    lemma_enc_str_array_no_nl(h.crates);
    lemma_enc_str_array_no_nl(h.languages);
    lemma_enc_str_array_no_nl(h.commands);
    lemma_no_nl_concat("{\"files\":"@, enc_str_array(h.files));
    lemma_no_nl_concat("{\"files\":"@ + enc_str_array(h.files), ",\"crates\":"@);
    lemma_no_nl_concat(
        "{\"files\":"@ + enc_str_array(h.files) + ",\"crates\":"@,
        enc_str_array(h.crates),
    );
    lemma_no_nl_concat(
        "{\"files\":"@ + enc_str_array(h.files) + ",\"crates\":"@ + enc_str_array(h.crates),
        ",\"languages\":"@,
    );
    lemma_no_nl_concat(
        "{\"files\":"@ + enc_str_array(h.files) + ",\"crates\":"@ + enc_str_array(h.crates)
            + ",\"languages\":"@,
        enc_str_array(h.languages),
    );
    lemma_no_nl_concat(
        "{\"files\":"@ + enc_str_array(h.files) + ",\"crates\":"@ + enc_str_array(h.crates)
            + ",\"languages\":"@ + enc_str_array(h.languages),
        ",\"commands\":"@,
    );
    lemma_no_nl_concat(
        "{\"files\":"@ + enc_str_array(h.files) + ",\"crates\":"@ + enc_str_array(h.crates)
            + ",\"languages\":"@ + enc_str_array(h.languages) + ",\"commands\":"@,
        enc_str_array(h.commands),
    );
    lemma_no_nl_concat(
        "{\"files\":"@ + enc_str_array(h.files) + ",\"crates\":"@ + enc_str_array(h.crates)
            + ",\"languages\":"@ + enc_str_array(h.languages) + ",\"commands\":"@
            + enc_str_array(h.commands),
        "}"@,
    );
}

/// The counters object holds no newline.
proof fn lemma_enc_counters_no_nl(c: CountersView)
    ensures
        no_nl(enc_counters(c)),
{
    reveal_strlit("{\"seen_count\":");
    reveal_strlit(",\"used_count\":");
    reveal_strlit(",\"last_used_at\":");
    reveal_strlit("}");
    assert(no_nl("{\"seen_count\":"@));
    assert(no_nl(",\"used_count\":"@));
    assert(no_nl(",\"last_used_at\":"@));
    assert(no_nl("}"@));
    lemma_digits_no_nl(c.seen_count as u64);
    lemma_digits_no_nl(c.used_count as u64);
    lemma_enc_opt_str_no_nl(c.last_used_at);
    lemma_no_nl_concat("{\"seen_count\":"@, digits(c.seen_count as u64));
    lemma_no_nl_concat(
        "{\"seen_count\":"@ + digits(c.seen_count as u64),
        ",\"used_count\":"@,
    );
    lemma_no_nl_concat(
        "{\"seen_count\":"@ + digits(c.seen_count as u64) + ",\"used_count\":"@,
        digits(c.used_count as u64),
    );
    lemma_no_nl_concat(
        "{\"seen_count\":"@ + digits(c.seen_count as u64) + ",\"used_count\":"@ + digits(
            c.used_count as u64,
        ),
        ",\"last_used_at\":"@,
    );
    lemma_no_nl_concat(
        "{\"seen_count\":"@ + digits(c.seen_count as u64) + ",\"used_count\":"@ + digits(
            c.used_count as u64,
        ) + ",\"last_used_at\":"@,
        enc_opt_str(c.last_used_at),
    );
    lemma_no_nl_concat(
        "{\"seen_count\":"@ + digits(c.seen_count as u64) + ",\"used_count\":"@ + digits(
            c.used_count as u64,
        ) + ",\"last_used_at\":"@ + enc_opt_str(c.last_used_at),
        "}"@,
    );
}

/// The expiry holds no newline.
proof fn lemma_enc_expiry_no_nl(o: Option<ExpiryView>)
    ensures
        no_nl(enc_expiry(o)),
{
    reveal_strlit("null");
    reveal_strlit("{\"ttl_secs\":");
    reveal_strlit(",\"review_after\":");
    reveal_strlit("}");
    match o {
        None => {
            assert(no_nl("null"@));
        },
        Some(e) => {
            assert(no_nl("{\"ttl_secs\":"@));
            assert(no_nl(",\"review_after\":"@));
            assert(no_nl("}"@));
            lemma_enc_opt_u64_no_nl(e.ttl_secs);
            lemma_enc_opt_str_no_nl(e.review_after);
            lemma_no_nl_concat("{\"ttl_secs\":"@, enc_opt_u64(e.ttl_secs));
            lemma_no_nl_concat(
                "{\"ttl_secs\":"@ + enc_opt_u64(e.ttl_secs),
                ",\"review_after\":"@,
            );
            lemma_no_nl_concat(
                "{\"ttl_secs\":"@ + enc_opt_u64(e.ttl_secs) + ",\"review_after\":"@,
                enc_opt_str(e.review_after),
            );
            lemma_no_nl_concat(
                "{\"ttl_secs\":"@ + enc_opt_u64(e.ttl_secs) + ",\"review_after\":"@
                    + enc_opt_str(e.review_after),
                "}"@,
            );
        },
    }
}

/// The trailing fields of an encoded item hold no newline.
proof fn lemma_enc_item_c_no_nl(v: ItemView)
    ensures
        no_nl(enc_item_c(v)),
{
    reveal_strlit(",\"content\":");
    reveal_strlit(",\"tags\":");
    reveal_strlit(",\"relevance_hints\":");
    reveal_strlit(",\"counters\":");
    reveal_strlit(",\"expiry\":");
    reveal_strlit("}");
    assert(no_nl(",\"content\":"@));
    assert(no_nl(",\"tags\":"@));
    assert(no_nl(",\"relevance_hints\":"@));
    assert(no_nl(",\"counters\":"@));
    assert(no_nl(",\"expiry\":"@));
    assert(no_nl("}"@));
    lemma_enc_str_no_nl(v.content);
    lemma_enc_str_array_no_nl(v.tags);
    lemma_enc_hints_no_nl(v.relevance_hints);
    lemma_enc_counters_no_nl(v.counters);
    lemma_enc_expiry_no_nl(v.expiry);
    lemma_no_nl_concat(",\"content\":"@, enc_str(v.content));
    lemma_no_nl_concat(",\"content\":"@ + enc_str(v.content), ",\"tags\":"@);
    lemma_no_nl_concat(
        ",\"content\":"@ + enc_str(v.content) + ",\"tags\":"@,
        enc_str_array(v.tags),
    );
    lemma_no_nl_concat(
        ",\"content\":"@ + enc_str(v.content) + ",\"tags\":"@ + enc_str_array(v.tags),
        ",\"relevance_hints\":"@,
    );
    lemma_no_nl_concat(
        ",\"content\":"@ + enc_str(v.content) + ",\"tags\":"@ + enc_str_array(v.tags)
            + ",\"relevance_hints\":"@,
        enc_hints(v.relevance_hints),
    );
    lemma_no_nl_concat(
        ",\"content\":"@ + enc_str(v.content) + ",\"tags\":"@ + enc_str_array(v.tags)
            + ",\"relevance_hints\":"@ + enc_hints(v.relevance_hints),
        ",\"counters\":"@,
    );
    lemma_no_nl_concat(
        ",\"content\":"@ + enc_str(v.content) + ",\"tags\":"@ + enc_str_array(v.tags)
            + ",\"relevance_hints\":"@ + enc_hints(v.relevance_hints) + ",\"counters\":"@,
        enc_counters(v.counters),
    );
    lemma_no_nl_concat(
        ",\"content\":"@ + enc_str(v.content) + ",\"tags\":"@ + enc_str_array(v.tags)
            + ",\"relevance_hints\":"@ + enc_hints(v.relevance_hints) + ",\"counters\":"@
            + enc_counters(v.counters),
        ",\"expiry\":"@,
    );
    lemma_no_nl_concat(
        ",\"content\":"@ + enc_str(v.content) + ",\"tags\":"@ + enc_str_array(v.tags)
            + ",\"relevance_hints\":"@ + enc_hints(v.relevance_hints) + ",\"counters\":"@
            + enc_counters(v.counters) + ",\"expiry\":"@,
        enc_expiry(v.expiry),
    );
    lemma_no_nl_concat(
        ",\"content\":"@ + enc_str(v.content) + ",\"tags\":"@ + enc_str_array(v.tags)
            + ",\"relevance_hints\":"@ + enc_hints(v.relevance_hints) + ",\"counters\":"@
            + enc_counters(v.counters) + ",\"expiry\":"@ + enc_expiry(v.expiry),
        "}"@,
    );
}

/// A whole encoded item stays on one line.
pub proof fn lemma_enc_item_no_nl(v: ItemView)
    ensures
        no_nl(enc_item(v)),
        enc_item(v).len() > 0,
        enc_item(v)[0] == '{',
        enc_item(v).last() == '}',
{
    reveal(enc_item);
    reveal_strlit("{\"id\":");
    reveal_strlit("}");
    lemma_enc_item_a_no_nl(v);
    lemma_enc_item_b_no_nl(v);
    lemma_enc_item_c_no_nl(v);
    lemma_no_nl_concat(enc_item_a(v), enc_item_b(v));
    lemma_no_nl_concat(enc_item_a(v) + enc_item_b(v), enc_item_c(v));
    assert(enc_item_a(v)[0] == "{\"id\":"@[0]);
    assert(enc_item(v)[0] == enc_item_a(v)[0]);
    assert(enc_item_c(v).last() == "}"@[0]);
    assert(enc_item(v).last() == enc_item_c(v).last());
}

/// The first newline's position: never past the end, no newline before it,
/// and a newline at it whenever it lies inside.
pub proof fn lemma_nl_pos_facts(s: Seq<char>)
    ensures
        0 <= nl_pos(s) <= s.len(),
        forall|m: int| 0 <= m < nl_pos(s) ==> s[m] != '\n',
        nl_pos(s) < s.len() ==> s[nl_pos(s)] == '\n',
    decreases s.len(),
{
    if s.len() == 0 {
    } else if s[0] == '\n' {
    } else {
        lemma_nl_pos_facts(s.drop_first());
        assert forall|m: int| 0 <= m < nl_pos(s) implies s[m] != '\n' by {
            if m > 0 {
                assert(s.drop_first()[m - 1] == s[m]);
            }
        }
        if nl_pos(s) < s.len() {
            assert(s.drop_first()[nl_pos(s) - 1] == s[nl_pos(s)]);
        }
    }
}

/// Every line the splitter yields is free of newlines.
pub proof fn lemma_line_split_no_nl(s: Seq<char>)
    ensures
        forall|k: int| 0 <= k < line_split(s).len() ==> no_nl(#[trigger] line_split(s)[k]),
    decreases s.len(),
{
    if s.len() == 0 {
    } else {
        lemma_nl_pos_facts(s);
        let k0 = nl_pos(s);
        if 0 <= k0 < s.len() {
            lemma_line_split_no_nl(s.skip(k0 + 1));
            assert forall|k: int| 0 <= k < line_split(s).len() implies no_nl(
                #[trigger] line_split(s)[k],
            ) by {
                if k == 0 {
                    assert(line_split(s)[0] == s.take(k0));
                    assert forall|m: int| 0 <= m < s.take(k0).len() implies (#[trigger] s.take(
                        k0,
                    )[m]) != '\n' by {
                        assert(s.take(k0)[m] == s[m]);
                    }
                } else {
                    assert(line_split(s)[k] == line_split(s.skip(k0 + 1))[k - 1]);
                }
            }
        } else {
            assert(no_nl(s)) by {
                assert(forall|m: int| 0 <= m < s.len() ==> s[m] != '\n');
            }
            assert forall|k: int| 0 <= k < line_split(s).len() implies no_nl(
                #[trigger] line_split(s)[k],
            ) by {
                assert(line_split(s)[k] == s);
            }
        }
    }
}

/// The trimmed head is a suffix of its input and starts, when anything is
/// left, with a character that is not whitespace.
pub proof fn lemma_trim_start_facts(s: Seq<char>)
    ensures
        trim_start(s).len() <= s.len(),
        forall|k: int|
            0 <= k < trim_start(s).len() ==> #[trigger] trim_start(s)[k] == s[k + s.len()
                - trim_start(s).len()],
        trim_start(s).len() > 0 ==> !is_ws(trim_start(s)[0]),
    decreases s.len(),
{
    if s.len() > 0 && is_ws(s[0]) {
        lemma_trim_start_facts(s.drop_first());
        assert forall|k: int| 0 <= k < trim_start(s).len() implies #[trigger] trim_start(s)[k]
            == s[k + s.len() - trim_start(s).len()] by {
            assert(trim_start(s) == trim_start(s.drop_first()));
            assert(s.drop_first()[k + s.drop_first().len() - trim_start(s.drop_first()).len()]
                == s[k + s.len() - trim_start(s).len()]);
        }
    }
}

/// The trimmed tail is a prefix of its input and ends, when anything is
/// left, with a character that is not whitespace.
pub proof fn lemma_trim_end_facts(s: Seq<char>)
    ensures
        trim_end(s).len() <= s.len(),
        forall|k: int| 0 <= k < trim_end(s).len() ==> #[trigger] trim_end(s)[k] == s[k],
        trim_end(s).len() > 0 ==> !is_ws(trim_end(s).last()),
    decreases s.len(),
{
    if s.len() > 0 && is_ws(s.last()) {
        lemma_trim_end_facts(s.drop_last());
    }
}

/// Trimming is idempotent, and a trimmed piece of a newline-free text
/// stays newline-free.
pub proof fn lemma_trim_spec_facts(s: Seq<char>)
    ensures
        trim_spec(trim_spec(s)) == trim_spec(s),
        no_nl(s) ==> no_nl(trim_spec(s)),
{
    let u = trim_start(s);
    let t = trim_end(u);
    lemma_trim_start_facts(s);
    lemma_trim_end_facts(u);
    if t.len() > 0 {
        assert(t[0] == u[0]);
        assert(!is_ws(t[0]));
        assert(trim_start(t) == t);
        assert(!is_ws(t.last()));
        assert(trim_end(t) == t);
    } else {
        assert(trim_start(t) == t);
        assert(trim_end(t) == t);
    }
    if no_nl(s) {
        assert forall|k: int| 0 <= k < t.len() implies (#[trigger] t[k]) != '\n' by {
            assert(t[k] == u[k]);
            assert(u[k] == s[k + s.len() - u.len()]);
        }
    }
}

/// The first newline of a concatenation whose head holds one is the head's
/// first newline.
proof fn lemma_nl_pos_concat(a: Seq<char>, rest: Seq<char>)
    requires
        nl_pos(a) < a.len(),
    ensures
        nl_pos(a + rest) == nl_pos(a),
    decreases a.len(),
{
    let s = a + rest;
    assert(s[0] == a[0]);
    if a.len() > 0 && a[0] == '\n' {
    } else {
        lemma_nl_pos_concat(a.drop_first(), rest);
        assert(s.drop_first() =~= a.drop_first() + rest);
    }
}

/// Splitting distributes over a newline-closed head.
pub proof fn lemma_line_split_concat(a: Seq<char>, rest: Seq<char>)
    requires
        a.len() == 0 || a.last() == '\n',
    ensures
        line_split(a + rest) == line_split(a) + line_split(rest),
    decreases a.len(),
{
    if a.len() == 0 {
        assert(a + rest =~= rest);
        assert(line_split(a) + line_split(rest) =~= line_split(rest));
    } else {
        lemma_nl_pos_facts(a);
        let k = nl_pos(a);
        assert(k < a.len()) by {
            if k >= a.len() {
                assert(a[a.len() - 1] != '\n');
            }
        }
        lemma_nl_pos_concat(a, rest);
        let s = a + rest;
        assert(s.take(k) =~= a.take(k));
        assert(s.skip(k + 1) =~= a.skip(k + 1) + rest);
        let tail = a.skip(k + 1);
        assert(tail.len() == 0 || tail.last() == a.last());
        lemma_line_split_concat(tail, rest);
        assert(seq![a.take(k)] + (line_split(tail) + line_split(rest)) =~= (seq![a.take(k)]
            + line_split(tail)) + line_split(rest));
    }
}

/// Reading records distributes over concatenated line lists.
pub proof fn lemma_read_items_concat(l1: Seq<Seq<char>>, l2: Seq<Seq<char>>)
    ensures
        read_items(l1 + l2) == read_items(l1) + read_items(l2),
    decreases l1.len(),
{
    if l1.len() == 0 {
        assert(l1 + l2 =~= l2);
        assert(read_items(l1) + read_items(l2) =~= read_items(l2));
    } else {
        assert((l1 + l2)[0] == l1[0]);
        assert((l1 + l2).drop_first() =~= l1.drop_first() + l2);
        lemma_read_items_concat(l1.drop_first(), l2);
        let t = trim_spec(l1[0]);
        if t.len() > 0 {
            match p_item_line(t) {
                Some(v) => {
                    assert(seq![v] + (read_items(l1.drop_first()) + read_items(l2)) =~= (seq![v]
                        + read_items(l1.drop_first())) + read_items(l2));
                },
                None => {},
            }
        }
    }
}

/// The first newline after a newline-free prefix is right behind it.
proof fn lemma_nl_pos_after(a: Seq<char>, rest: Seq<char>)
    requires
        no_nl(a),
    ensures
        nl_pos(a + (seq!['\n'] + rest)) == a.len(),
    decreases a.len(),
{
    let s = a + (seq!['\n'] + rest);
    if a.len() == 0 {
        assert(s[0] == '\n');
    } else {
        assert(s[0] == a[0]);
        assert(a[0] != '\n');
        assert forall|k: int| 0 <= k < a.drop_first().len() implies (
        #[trigger] a.drop_first()[k]) != '\n' by {
            assert(a.drop_first()[k] == a[k + 1]);
        }
        lemma_nl_pos_after(a.drop_first(), rest);
        assert(s.drop_first() =~= a.drop_first() + (seq!['\n'] + rest));
    }
}

/// Splitting off one newline-terminated record leaves the rest to split.
pub proof fn lemma_line_split_record(a: Seq<char>, rest: Seq<char>)
    requires
        no_nl(a),
    ensures
        line_split((a + seq!['\n']) + rest) == seq![a] + line_split(rest),
{
    let s = (a + seq!['\n']) + rest;
    assert(s =~= a + (seq!['\n'] + rest));
    lemma_nl_pos_after(a, rest);
    let k = nl_pos(s);
    assert(k == a.len());
    assert(0 <= k < s.len());
    assert(s.take(k) =~= a);
    assert(s.skip(k + 1) =~= rest);
}

/// An encoded record is already trimmed.
proof fn lemma_trim_enc_item(v: ItemView)
    ensures
        trim_spec(enc_item(v)) == enc_item(v),
        trim_spec(enc_item(v)).len() > 0,
{
    lemma_enc_item_no_nl(v);
    let s = enc_item(v);
    assert(!is_ws(s[0]));
    assert(trim_start(s) == s);
    assert(!is_ws(s.last()));
    assert(trim_end(s) == s);
}

/// Reading back rendered records restores them, one count per record.
pub proof fn lemma_read_render(items: Seq<ItemView>)
    ensures
        read_items(line_split(render_items(items))) == items,
        read_count(line_split(render_items(items))) == items.len(),
    decreases items.len(),
{
    if items.len() == 0 {
        assert(render_items(items).len() == 0);
        assert(line_split(render_items(items)) == Seq::<Seq<char>>::empty());
        assert(read_items(Seq::<Seq<char>>::empty()) =~= items);
    } else {
        let v = items[0];
        let rest = items.drop_first();
        lemma_enc_item_no_nl(v);
        lemma_line_split_record(enc_item(v), render_items(rest));
        let lines = seq![enc_item(v)] + line_split(render_items(rest));
        assert(line_split(render_items(items)) == lines);
        lemma_trim_enc_item(v);
        crate::item_codec::lemma_item_line_rt(v);
        lemma_read_render(rest);
        assert(lines[0] == enc_item(v));
        assert(lines.drop_first() =~= line_split(render_items(rest)));
        assert(read_items(lines) == seq![v] + rest);
        assert(seq![v] + rest =~= items);
    }
}

/// Round trip: importing an exported store into an empty store restores the
/// store's read view, record for record by id with the newest record of
/// each id, ordered newest first as export writes it.  A store whose ids
/// are unique comes back whole, only sorted.
pub proof fn lemma_export_import_round_trip(items: Seq<ItemView>)
    ensures
        import_into_empty(export_content(items)) == sort_desc(lww(items)),
        read_count(line_split(export_content(items))) == lww(items).len(),
        unique_ids(items) ==> import_into_empty(export_content(items)) == sort_desc(items),
{
    let view = lww(items);
    let sorted = sort_desc(view);
    lemma_lww_unique(items);
    lemma_sort_desc_ensures(view);
    lemma_sort_desc_unique(view);
    lemma_read_render(sorted);
    lemma_lww_of_unique(sorted);
    lemma_sort_desc_of_sorted(sorted);
    if unique_ids(items) {
        lemma_lww_of_unique(items);
    }
}

} // verus!
