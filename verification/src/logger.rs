//! The durable-memory surface an interactive session uses: a per-root
//! logger handle, the preamble built from durable items, and the durable
//! views of the activity log.

use vstd::prelude::*;

use crate::recall::recall;
use crate::recall::RecallContext;
use crate::store::JsonlMemoryStore;
use crate::text::chars_to_string;
use crate::text::lex_le;
use crate::text::lower_seq;
use crate::text::push_str_chars;
use crate::text::str_to_chars;
use crate::types::Kind;
use crate::types::MemoryItem;

verus! {

/// One deduplicated preamble entry: the folded content, the tags seen for
/// it in order, and how many items folded into it.
#[verifier::ext_equal]
pub ghost struct EntryView {
    pub key: Seq<char>,
    pub tags: Seq<Seq<char>>,
    pub count: int,
}

/// Appends the new tags that are not yet present, keeping order.
pub open spec fn merge_tags(have: Seq<Seq<char>>, new: Seq<Seq<char>>) -> Seq<Seq<char>>
    decreases new.len(),
{
    if new.len() == 0 {
        have
    } else if have.contains(new[0]) {
        merge_tags(have, new.drop_first())
    } else {
        merge_tags(have.push(new[0]), new.drop_first())
    }
}

/// Folds one item into the key-ordered entry list: a matching key gains
/// the item's tags and one count; a fresh key takes its place in order.
pub open spec fn dd_insert(m: Seq<EntryView>, key: Seq<char>, tags: Seq<Seq<char>>) -> Seq<
    EntryView,
>
    decreases m.len(),
{
    if m.len() == 0 {
        seq![EntryView { key, tags: merge_tags(Seq::empty(), tags), count: 1 }]
    } else if m[0].key == key {
        seq![
            EntryView { key, tags: merge_tags(m[0].tags, tags), count: m[0].count + 1 },
        ] + m.drop_first()
    } else if lex_le(key, m[0].key) {
        seq![EntryView { key, tags: merge_tags(Seq::empty(), tags), count: 1 }] + m
    } else {
        seq![m[0]] + dd_insert(m.drop_first(), key, tags)
    }
}

/// Folds a list of contents and tags into key-ordered entries, keys folded
/// to lower case.
pub open spec fn dd_fold(items: Seq<(Seq<char>, Seq<Seq<char>>)>, i: int, m: Seq<EntryView>)
    -> Seq<EntryView>
    decreases items.len() - i,
{
    if i < 0 || i >= items.len() {
        m
    } else {
        dd_fold(items, i + 1, dd_insert(m, lower_seq(items[i].0), items[i].1))
    }
}

/// The rendered text of one entry: the key, its tags if any, and a
/// multiplicity mark when several items folded in.
pub open spec fn render_entry(e: EntryView) -> Seq<char> {
    if e.count > 1 && e.tags.len() > 0 {
        e.key + " (tags: "@ + join_comma(e.tags) + " \u{00D7}"@ + crate::codec::digits(
            e.count as u64,
        ) + ")"@
    } else if e.tags.len() > 0 {
        e.key + " (tags: "@ + join_comma(e.tags) + ")"@
    } else {
        e.key
    }
}

/// Tags joined with a comma and a space.
pub open spec fn join_comma(tags: Seq<Seq<char>>) -> Seq<char>
    decreases tags.len(),
{
    if tags.len() == 0 {
        Seq::empty()
    } else if tags.len() == 1 {
        tags[0]
    } else {
        tags[0] + ", "@ + join_comma(tags.drop_first())
    }
}

/// Entry lines joined with a newline and a dash.
pub open spec fn join_lines(lines: Seq<Seq<char>>) -> Seq<char>
    decreases lines.len(),
{
    if lines.len() == 0 {
        Seq::empty()
    } else if lines.len() == 1 {
        lines[0]
    } else {
        lines[0] + "\n- "@ + join_lines(lines.drop_first())
    }
}

/// The rendered lines of the first `cap` entries.
pub open spec fn render_entries(m: Seq<EntryView>, cap: int) -> Seq<Seq<char>>
    decreases m.len(),
{
    if m.len() == 0 || cap <= 0 {
        Seq::empty()
    } else {
        seq![render_entry(m[0])] + render_entries(m.drop_first(), cap - 1)
    }
}

/// The deduplicated section lines for a list of contents and tags.
pub open spec fn dedupe_spec(items: Seq<(Seq<char>, Seq<Seq<char>>)>, cap: int) -> Seq<
    Seq<char>,
> {
    render_entries(dd_fold(items, 0, Seq::empty()), cap)
}

/// The durable contents and tags of the items of one kind.
pub open spec fn picked(items: Seq<crate::types::ItemView>, kind: Kind) -> Seq<
    (Seq<char>, Seq<Seq<char>>),
>
    decreases items.len(),
{
    if items.len() == 0 {
        Seq::empty()
    } else if items[0].kind == kind {
        seq![(items[0].content, items[0].tags)] + picked(items.drop_first(), kind)
    } else {
        picked(items.drop_first(), kind)
    }
}

/// The preamble body: the preference section, the fact section, or both,
/// joined with a blank line.
pub open spec fn preamble_body(prefs: Seq<Seq<char>>, facts: Seq<Seq<char>>) -> Seq<char> {
    let p = if prefs.len() > 0 {
        seq![("Project preferences:\n- "@ + join_lines(prefs))]
    } else {
        Seq::<Seq<char>>::empty()
    };
    let f = if facts.len() > 0 {
        seq![("Project facts:\n- "@ + join_lines(facts))]
    } else {
        Seq::<Seq<char>>::empty()
    };
    join_blank(p + f)
}

/// A text cut to the length budget: a text within the budget stands as it
/// is; a longer one is cut with a trailing mark on the last two places; a
/// budget without room for the mark cuts plainly.
pub open spec fn clip(s: Seq<char>, max_len: int) -> Seq<char> {
    if s.len() <= max_len {
        s
    } else if max_len >= 2 {
        s.take(max_len - 2) + "\n\u{2026}"@
    } else if max_len >= 0 {
        s.take(max_len)
    } else {
        Seq::empty()
    }
}

/// Sections joined with a blank line.
pub open spec fn join_blank(parts: Seq<Seq<char>>) -> Seq<char>
    decreases parts.len(),
{
    if parts.len() == 0 {
        Seq::empty()
    } else if parts.len() == 1 {
        parts[0]
    } else {
        parts[0] + "\n\n"@ + join_blank(parts.drop_first())
    }
}

/// The whole preamble around a body.
pub open spec fn preamble_wrap(body: Seq<char>) -> Seq<char> {
    "Context: The following project memory may be helpful.\n"@ + body
        + "\nPlease follow these preferences and consider these facts."@
}

/// What the preamble builder makes of recalled items: nothing when no
/// durable item came back, else the wrapped, deduplicated text, the whole
/// of it cut to the length budget.
pub open spec fn preamble_spec(items: Seq<crate::types::ItemView>, max_len: int) -> Option<
    Seq<char>,
> {
    let prefs = picked(items, Kind::Pref);
    let facts = picked(items, Kind::Fact);
    if prefs.len() == 0 && facts.len() == 0 {
        None
    } else {
        Some(
            clip(
                preamble_wrap(preamble_body(dedupe_spec(prefs, 8), dedupe_spec(facts, 6))),
                max_len,
            ),
        )
    }
}

/// A preamble never exceeds its length budget.
pub proof fn lemma_preamble_len(items: Seq<crate::types::ItemView>, max_len: int)
    requires
        max_len >= 0,
    ensures
        preamble_spec(items, max_len) matches Some(s) ==> s.len() <= max_len,
{
    reveal_strlit("\n\u{2026}");
}


/// The mathematical value of a deduplication entry.
pub struct DEntry {
    pub key: String,
    pub tags: Vec<String>,
    pub count: usize,
}

impl View for DEntry {
    type V = EntryView;

    open spec fn view(&self) -> EntryView {
        EntryView { key: self.key@, tags: self.tags.deep_view(), count: self.count as int }
    }
}

/// The views of a vector of entries.
pub open spec fn entries_view(v: Seq<DEntry>) -> Seq<EntryView> {
    v.map_values(|e: DEntry| e@)
}

/// The views of content-and-tags pairs.
pub open spec fn pairs_view(v: Seq<(String, Vec<String>)>) -> Seq<(Seq<char>, Seq<Seq<char>>)> {
    v.map_values(|p: (String, Vec<String>)| (p.0@, p.1.deep_view()))
}

/// Whether a string list holds the given string.
fn strs_contain(list: &Vec<String>, x: &String) -> (r: bool)
    ensures
        r == list.deep_view().contains(x@),
{
    let ghost dv = list.deep_view();
    let mut i: usize = 0;
    while i < list.len()
        invariant
            i <= list@.len(),
            dv == list.deep_view(),
            dv.len() == list@.len(),
            forall|k: int| 0 <= k < i ==> dv[k] != x@,
        decreases list@.len() - i,
    {
        proof {
            assert(dv[i as int] =~= list@[i as int]@);
        }
        if crate::text::str_eq(list[i].as_str(), x.as_str()) {
            proof {
                assert(dv.contains(x@));
            }
            return true;
        }
        i = i + 1;
    }
    proof {
        if dv.contains(x@) {
            let k = choose|k: int| 0 <= k < dv.len() && dv[k] == x@;
        }
    }
    false
}

/// Appends the tags not yet present.
fn merge_tags_exec(have: &mut Vec<String>, new: &Vec<String>)
    ensures
        final(have).deep_view() == merge_tags(old(have).deep_view(), new.deep_view()),
{
    let ghost hv0 = have.deep_view();
    let ghost nv = new.deep_view();
    let mut i: usize = 0;
    proof {
        assert(nv.skip(0) =~= nv);
    }
    while i < new.len()
        invariant
            i <= new@.len(),
            nv == new.deep_view(),
            nv.len() == new@.len(),
            merge_tags(hv0, nv) == merge_tags(have.deep_view(), nv.skip(i as int)),
        decreases new@.len() - i,
    {
        proof {
            assert(nv.skip(i as int)[0] == nv[i as int]);
            assert(nv[i as int] =~= new@[i as int]@);
            assert(nv.skip(i as int).drop_first() =~= nv.skip((i + 1) as int));
        }
        if !strs_contain(have, &new[i]) {
            let ghost prev = have.deep_view();
            have.push(new[i].clone());
            proof {
                assert(have.deep_view() =~= prev.push(nv[i as int]));
            }
        }
        i = i + 1;
    }
    proof {
        assert(nv.skip(nv.len() as int).len() == 0);
    }
}

/// Every entry count after an insertion stays within one of the old bound.
proof fn lemma_dd_insert_counts(m: Seq<EntryView>, key: Seq<char>, tags: Seq<Seq<char>>, b: int)
    requires
        0 <= b,
        forall|k: int| 0 <= k < m.len() ==> (#[trigger] m[k]).count <= b,
    ensures
        forall|k: int|
            0 <= k < dd_insert(m, key, tags).len() ==> (#[trigger] dd_insert(m, key, tags)[k]).count
                <= b + 1,
    decreases m.len(),
{
    let r = dd_insert(m, key, tags);
    if m.len() == 0 {
    } else if m[0].key == key {
        assert forall|k: int| 0 <= k < r.len() implies (#[trigger] r[k]).count <= b + 1 by {
            if k > 0 {
                assert(r[k] == m.drop_first()[k - 1]);
                assert(m.drop_first()[k - 1] == m[k]);
            }
        }
    } else if lex_le(key, m[0].key) {
        assert forall|k: int| 0 <= k < r.len() implies (#[trigger] r[k]).count <= b + 1 by {
            if k > 0 {
                assert(r[k] == m[k - 1]);
            }
        }
    } else {
        assert forall|k: int| 0 <= k < m.drop_first().len() implies (
        #[trigger] m.drop_first()[k]).count <= b by {
            assert(m.drop_first()[k] == m[k + 1]);
        }
        lemma_dd_insert_counts(m.drop_first(), key, tags, b);
        let t = dd_insert(m.drop_first(), key, tags);
        assert forall|k: int| 0 <= k < r.len() implies (#[trigger] r[k]).count <= b + 1 by {
            if k > 0 {
                assert(r[k] == t[k - 1]);
            }
        }
    }
}

/// Whether the first key orders strictly before the second.
fn key_after(a: &String, b: &String) -> (r: bool)
    ensures
        r == (a@ != b@ && lex_le(a@, b@)),
{
    !crate::text::str_eq(a.as_str(), b.as_str()) && crate::text::str_le(a.as_str(), b.as_str())
}

/// Folds one lowercased content and its tags into the entry vector.
fn dd_insert_exec(m: &mut Vec<DEntry>, key: &Vec<char>, tags: &Vec<String>, ghost_bound: Ghost<int>)
    requires
        forall|k: int|
            0 <= k < old(m)@.len() ==> (#[trigger] entries_view(old(m)@)[k]).count
                <= ghost_bound@,
        0 <= ghost_bound@,
        ghost_bound@ + 1 <= usize::MAX,
    ensures
        entries_view(final(m)@) == dd_insert(entries_view(old(m)@), key@, tags.deep_view()),
        forall|k: int|
            0 <= k < final(m)@.len() ==> (#[trigger] entries_view(final(m)@)[k]).count
                <= ghost_bound@ + 1,
{
    let ghost s = entries_view(m@);
    let ghost tv = tags.deep_view();
    let ks0 = chars_to_string(key);
    let mut j: usize = 0;
    proof {
        assert(s.skip(0) =~= s);
    }
    while j < m.len() && key_after(&m[j].key, &ks0)
        invariant
            j <= m@.len(),
            s == entries_view(m@),
            s.len() == m@.len(),
            ks0@ == key@,
            dd_insert(s, key@, tv) == s.take(j as int) + dd_insert(s.skip(j as int), key@, tv),
        decreases m@.len() - j,
    {
        proof {
            assert(s.skip(j as int)[0] == s[j as int]);
            assert(s[j as int] == m@[j as int]@);
            assert(s.skip(j as int).drop_first() =~= s.skip((j + 1) as int));
            if lex_le(key@, s[j as int].key) {
                crate::text::lemma_lex_le_antisym(key@, s[j as int].key);
            }
            assert(s.take(j as int) + (seq![s[j as int]] + dd_insert(
                s.skip((j + 1) as int),
                key@,
                tv,
            )) =~= s.take((j + 1) as int) + dd_insert(s.skip((j + 1) as int), key@, tv));
        }
        j = j + 1;
    }
    proof {
        lemma_dd_insert_counts(s, key@, tv, ghost_bound@);
    }
    if j < m.len() {
        proof {
            assert(s.skip(j as int)[0] == s[j as int]);
            assert(s[j as int] == m@[j as int]@);
            assert(s.skip(j as int).drop_first() =~= s.skip((j + 1) as int));
        }
        let ks = chars_to_string(key);
        if crate::text::str_eq(m[j].key.as_str(), ks.as_str()) {
            let mut e = m.remove(j);
            merge_tags_exec(&mut e.tags, tags);
            e.count = e.count + 1;
            m.insert(j, e);
            proof {
                assert(entries_view(m@) =~= s.take(j as int) + (seq![
                    EntryView {
                        key: key@,
                        tags: merge_tags(s[j as int].tags, tv),
                        count: s[j as int].count + 1,
                    },
                ] + s.skip((j + 1) as int)));
                assert(dd_insert(s.skip(j as int), key@, tv) == seq![
                    EntryView {
                        key: key@,
                        tags: merge_tags(s[j as int].tags, tv),
                        count: s[j as int].count + 1,
                    },
                ] + s.skip(j as int).drop_first());
            }
        } else {
            let nt0: Vec<String> = Vec::new();
            proof {
                assert(nt0.deep_view() =~= Seq::<Seq<char>>::empty());
            }
            let mut nt = nt0;
            merge_tags_exec(&mut nt, tags);
            let e = DEntry { key: ks, count: 1, tags: nt };
            m.insert(j, e);
            proof {
                crate::text::lemma_lex_le_total(key@, s[j as int].key);
                assert(lex_le(key@, s[j as int].key));
                assert(dd_insert(s.skip(j as int), key@, tv) == seq![
                    EntryView { key: key@, tags: merge_tags(Seq::empty(), tv), count: 1 },
                ] + s.skip(j as int));
                assert(entries_view(m@) =~= s.take(j as int) + (seq![
                    EntryView { key: key@, tags: merge_tags(Seq::empty(), tv), count: 1 },
                ] + s.skip(j as int)));
            }
        }
    } else {
        proof {
            assert(s.skip(j as int).len() == 0);
        }
        let ks = chars_to_string(key);
        let nt0: Vec<String> = Vec::new();
        proof {
            assert(nt0.deep_view() =~= Seq::<Seq<char>>::empty());
        }
        let mut nt = nt0;
        merge_tags_exec(&mut nt, tags);
        let e = DEntry { key: ks, count: 1, tags: nt };
        m.push(e);
        proof {
            assert(dd_insert(s.skip(j as int), key@, tv) == seq![
                EntryView { key: key@, tags: merge_tags(Seq::empty(), tv), count: 1 },
            ]);
            assert(entries_view(m@) =~= s.take(j as int) + (seq![
                EntryView { key: key@, tags: merge_tags(Seq::empty(), tv), count: 1 },
            ] + s.skip(j as int)));
        }
    }
}

/// Appends the tags joined with a comma and a space, from the index on.
fn push_join_comma(out: &mut Vec<char>, tags: &Vec<String>, idx: usize)
    requires
        idx <= tags@.len(),
    ensures
        final(out)@ == old(out)@ + join_comma(tags.deep_view().skip(idx as int)),
    decreases tags@.len() - idx,
{
    let ghost dv = tags.deep_view();
    if idx >= tags.len() {
        proof {
            assert(out@ =~= old(out)@ + join_comma(dv.skip(idx as int)));
        }
        return ;
    }
    proof {
        assert(dv.skip(idx as int)[0] == dv[idx as int]);
        assert(dv[idx as int] =~= tags@[idx as int]@);
        assert(dv.skip(idx as int).drop_first() =~= dv.skip((idx + 1) as int));
    }
    push_str_chars(out, tags[idx].as_str());
    if idx + 1 < tags.len() {
        push_str_chars(out, ", ");
        push_join_comma(out, tags, idx + 1);
        proof {
            assert(out@ =~= old(out)@ + join_comma(dv.skip(idx as int)));
        }
    } else {
        proof {
            assert(dv.skip(idx as int).len() == 1);
            assert(out@ =~= old(out)@ + join_comma(dv.skip(idx as int)));
        }
    }
}

/// Appends the rendered text of one entry.
fn push_entry(out: &mut Vec<char>, e: &DEntry)
    ensures
        final(out)@ == old(out)@ + render_entry(e@),
{
    push_str_chars(out, e.key.as_str());
    if e.count > 1 && e.tags.len() > 0 {
        push_str_chars(out, " (tags: ");
        push_join_comma(out, &e.tags, 0);
        push_str_chars(out, " \u{00D7}");
        crate::codec::push_u64(out, e.count as u64);
        push_str_chars(out, ")");
        proof {
            assert(e.tags.deep_view().skip(0) =~= e.tags.deep_view());
            assert(out@ =~= old(out)@ + render_entry(e@));
        }
    } else if e.tags.len() > 0 {
        push_str_chars(out, " (tags: ");
        push_join_comma(out, &e.tags, 0);
        push_str_chars(out, ")");
        proof {
            assert(e.tags.deep_view().skip(0) =~= e.tags.deep_view());
            assert(out@ =~= old(out)@ + render_entry(e@));
        }
    } else {
        proof {
            assert(out@ =~= old(out)@ + render_entry(e@));
        }
    }
}

/// Renders the first `cap` entries as lines.
fn render_entries_exec(m: &Vec<DEntry>, cap: usize) -> (r: Vec<Vec<char>>)
    ensures
        r.deep_view() == render_entries(entries_view(m@), cap as int),
{
    let ghost s = entries_view(m@);
    let mut out: Vec<Vec<char>> = Vec::new();
    let mut i: usize = 0;
    proof {
        assert(s.skip(0) =~= s);
        assert(out.deep_view() + render_entries(s, cap as int) =~= render_entries(
            s,
            cap as int,
        ));
    }
    while i < m.len() && i < cap
        invariant
            i <= m@.len(),
            i <= cap,
            s == entries_view(m@),
            s.len() == m@.len(),
            render_entries(s, cap as int) == out.deep_view() + render_entries(
                s.skip(i as int),
                cap - i,
            ),
        decreases m@.len() - i,
    {
        proof {
            assert(s.skip(i as int)[0] == s[i as int]);
            assert(s[i as int] == m@[i as int]@);
            assert(s.skip(i as int).drop_first() =~= s.skip((i + 1) as int));
        }
        let mut line: Vec<char> = Vec::new();
        push_entry(&mut line, &m[i]);
        proof {
            assert(Seq::<char>::empty() + render_entry(s[i as int]) =~= render_entry(
                s[i as int],
            ));
        }
        let ghost prev = out.deep_view();
        proof {
            assert(line.deep_view() =~= line@);
        }
        out.push(line);
        proof {
            assert(out.deep_view() =~= prev.push(render_entry(s[i as int])));
            assert(prev + (seq![render_entry(s[i as int])] + render_entries(
                s.skip((i + 1) as int),
                cap - i - 1,
            )) =~= out.deep_view() + render_entries(s.skip((i + 1) as int), cap - i - 1));
        }
        i = i + 1;
    }
    proof {
        if i >= m@.len() {
            assert(s.skip(i as int).len() == 0);
        }
        assert(render_entries(s.skip(i as int), cap - i) =~= Seq::<Seq<char>>::empty());
        assert(out.deep_view() + Seq::<Seq<char>>::empty() =~= out.deep_view());
    }
    out
}

/// Builds the deduplicated section lines for content-and-tags pairs.
fn dedupe_exec(pairs: &Vec<(String, Vec<String>)>, cap: usize) -> (r: Vec<Vec<char>>)
    ensures
        r.deep_view() == dedupe_spec(pairs_view(pairs@), cap as int),
{
    let ghost pv = pairs_view(pairs@);
    let mut m: Vec<DEntry> = Vec::new();
    let mut i: usize = 0;
    proof {
        assert(entries_view(m@) =~= Seq::<EntryView>::empty());
    }
    while i < pairs.len()
        invariant
            i <= pairs@.len(),
            pv == pairs_view(pairs@),
            pv.len() == pairs@.len(),
            dd_fold(pv, 0, Seq::empty()) == dd_fold(pv, i as int, entries_view(m@)),
            forall|k: int|
                0 <= k < m@.len() ==> (#[trigger] entries_view(m@)[k]).count <= i,
        decreases pairs@.len() - i,
    {
        proof {
            assert(pv[i as int] == (pairs@[i as int].0@, pairs@[i as int].1.deep_view()));
        }
        let kc = str_to_chars(pairs[i].0.as_str());
        let kl = crate::text::lower_chars(&kc);
        dd_insert_exec(&mut m, &kl, &pairs[i].1, Ghost(i as int));
        i = i + 1;
    }
    render_entries_exec(&m, cap)
}

/// Appends the lines joined with a newline and a dash, from the index on.
fn push_join_lines(out: &mut Vec<char>, lines: &Vec<Vec<char>>, idx: usize)
    requires
        idx <= lines@.len(),
    ensures
        final(out)@ == old(out)@ + join_lines(lines.deep_view().skip(idx as int)),
    decreases lines@.len() - idx,
{
    let ghost dv = lines.deep_view();
    if idx >= lines.len() {
        proof {
            assert(out@ =~= old(out)@ + join_lines(dv.skip(idx as int)));
        }
        return ;
    }
    proof {
        assert(dv.skip(idx as int)[0] == dv[idx as int]);
        assert(dv[idx as int] =~= lines@[idx as int]@);
        assert(dv.skip(idx as int).drop_first() =~= dv.skip((idx + 1) as int));
    }
    let mut piece = crate::store::subrange_chars(&lines[idx], 0, lines[idx].len());
    proof {
        assert(lines@[idx as int]@.subrange(0, lines@[idx as int]@.len() as int)
            =~= lines@[idx as int]@);
    }
    out.append(&mut piece);
    if idx + 1 < lines.len() {
        push_str_chars(out, "\n- ");
        push_join_lines(out, lines, idx + 1);
        proof {
            assert(out@ =~= old(out)@ + join_lines(dv.skip(idx as int)));
        }
    } else {
        proof {
            assert(dv.skip(idx as int).len() == 1);
            assert(out@ =~= old(out)@ + join_lines(dv.skip(idx as int)));
        }
    }
}

/// Builds the preamble from recalled items: nothing when no durable item
/// is among them, else the wrapped, deduplicated, capped text.
pub fn build_preamble_from(items: &Vec<MemoryItem>, max_len: usize) -> (r: Option<String>)
    ensures
        match r {
            Some(s) => preamble_spec(crate::types::items_view(items@), max_len as int) == Some(
                s@,
            ),
            None => preamble_spec(crate::types::items_view(items@), max_len as int) is None,
        },
{
    let ghost iv = crate::types::items_view(items@);
    let mut prefs: Vec<(String, Vec<String>)> = Vec::new();
    let mut facts: Vec<(String, Vec<String>)> = Vec::new();
    let mut i: usize = 0;
    proof {
        assert(iv.skip(0) =~= iv);
        assert(pairs_view(prefs@) + picked(iv, Kind::Pref) =~= picked(iv, Kind::Pref));
        assert(pairs_view(facts@) + picked(iv, Kind::Fact) =~= picked(iv, Kind::Fact));
    }
    while i < items.len()
        invariant
            i <= items@.len(),
            iv == crate::types::items_view(items@),
            iv.len() == items@.len(),
            picked(iv, Kind::Pref) == pairs_view(prefs@) + picked(iv.skip(i as int), Kind::Pref),
            picked(iv, Kind::Fact) == pairs_view(facts@) + picked(iv.skip(i as int), Kind::Fact),
        decreases items@.len() - i,
    {
        proof {
            assert(iv.skip(i as int)[0] == iv[i as int]);
            assert(iv.skip(i as int).drop_first() =~= iv.skip((i + 1) as int));
        }
        match items[i].kind {
            Kind::Pref => {
                let ghost prev = pairs_view(prefs@);
                prefs.push(
                    (items[i].content.clone(), crate::types::clone_strings(&items[i].tags)),
                );
                proof {
                    assert(pairs_view(prefs@) =~= prev.push(
                        (iv[i as int].content, iv[i as int].tags),
                    ));
                    assert(prev + (seq![(iv[i as int].content, iv[i as int].tags)] + picked(
                        iv.skip((i + 1) as int),
                        Kind::Pref,
                    )) =~= pairs_view(prefs@) + picked(iv.skip((i + 1) as int), Kind::Pref));
                }
            },
            Kind::Fact => {
                let ghost prev = pairs_view(facts@);
                facts.push(
                    (items[i].content.clone(), crate::types::clone_strings(&items[i].tags)),
                );
                proof {
                    assert(pairs_view(facts@) =~= prev.push(
                        (iv[i as int].content, iv[i as int].tags),
                    ));
                    assert(prev + (seq![(iv[i as int].content, iv[i as int].tags)] + picked(
                        iv.skip((i + 1) as int),
                        Kind::Fact,
                    )) =~= pairs_view(facts@) + picked(iv.skip((i + 1) as int), Kind::Fact));
                }
            },
            _ => {},
        }
        i = i + 1;
    }
    proof {
        assert(iv.skip(iv.len() as int).len() == 0);
        assert(pairs_view(prefs@) + picked(iv.skip(iv.len() as int), Kind::Pref) =~= pairs_view(
            prefs@,
        ));
        assert(pairs_view(facts@) + picked(iv.skip(iv.len() as int), Kind::Fact) =~= pairs_view(
            facts@,
        ));
    }
    if prefs.len() == 0 && facts.len() == 0 {
        proof {
            assert(picked(iv, Kind::Pref).len() == 0);
            assert(picked(iv, Kind::Fact).len() == 0);
        }
        return None;
    }
    let pl = dedupe_exec(&prefs, 8);
    let fl = dedupe_exec(&facts, 6);
    let mut parts: Vec<Vec<char>> = Vec::new();
    proof {
        assert(parts.deep_view() =~= Seq::<Seq<char>>::empty());
    }
    if pl.len() > 0 {
        let mut sec: Vec<char> = Vec::new();
        push_str_chars(&mut sec, "Project preferences:\n- ");
        push_join_lines(&mut sec, &pl, 0);
        proof {
            assert(pl.deep_view().skip(0) =~= pl.deep_view());
            assert(sec@ =~= "Project preferences:\n- "@ + join_lines(pl.deep_view()));
        }
        let ghost pprev = parts.deep_view();
        proof {
            assert(sec.deep_view() =~= sec@);
        }
        parts.push(sec);
        proof {
            assert(parts.deep_view() =~= pprev.push(sec@));
        }
    }
    if fl.len() > 0 {
        let mut sec: Vec<char> = Vec::new();
        push_str_chars(&mut sec, "Project facts:\n- ");
        push_join_lines(&mut sec, &fl, 0);
        proof {
            assert(fl.deep_view().skip(0) =~= fl.deep_view());
            assert(sec@ =~= "Project facts:\n- "@ + join_lines(fl.deep_view()));
        }
        let ghost pprev = parts.deep_view();
        proof {
            assert(sec.deep_view() =~= sec@);
        }
        parts.push(sec);
        proof {
            assert(parts.deep_view() =~= pprev.push(sec@));
        }
    }
    let mut joined: Vec<char> = Vec::new();
    push_join_blank(&mut joined, &parts, 0);
    proof {
        assert(parts.deep_view().skip(0) =~= parts.deep_view());
        assert(joined@ =~= Seq::<char>::empty() + join_blank(parts.deep_view()));
    }
    let ghost prefs_dl = dedupe_spec(picked(iv, Kind::Pref), 8);
    let ghost facts_dl = dedupe_spec(picked(iv, Kind::Fact), 6);
    proof {
        let p = if prefs_dl.len() > 0 {
            seq![("Project preferences:\n- "@ + join_lines(prefs_dl))]
        } else {
            Seq::<Seq<char>>::empty()
        };
        let f = if facts_dl.len() > 0 {
            seq![("Project facts:\n- "@ + join_lines(facts_dl))]
        } else {
            Seq::<Seq<char>>::empty()
        };
        assert(parts.deep_view() =~= p + f);
    }
    let mut out: Vec<char> = Vec::new();
    push_str_chars(&mut out, "Context: The following project memory may be helpful.\n");
    let mut piece = joined;
    out.append(&mut piece);
    push_str_chars(&mut out, "\nPlease follow these preferences and consider these facts.");
    proof {
        assert(out@ =~= preamble_wrap(preamble_body(prefs_dl, facts_dl)));
    }
    let ghost whole = out@;
    let clipped: Vec<char> = if out.len() <= max_len {
        out
    } else if max_len >= 2 {
        let mut b = crate::store::subrange_chars(&out, 0, max_len - 2);
        push_str_chars(&mut b, "\n\u{2026}");
        proof {
            assert(whole.subrange(0, max_len - 2) =~= whole.take(max_len - 2));
        }
        b
    } else {
        let b = crate::store::subrange_chars(&out, 0, max_len);
        proof {
            assert(whole.subrange(0, max_len as int) =~= whole.take(max_len as int));
        }
        b
    };
    proof {
        assert(clipped@ =~= clip(whole, max_len as int));
    }
    Some(chars_to_string(&clipped))
}

/// Appends the parts joined with a blank line, from the index on.
fn push_join_blank(out: &mut Vec<char>, parts: &Vec<Vec<char>>, idx: usize)
    requires
        idx <= parts@.len(),
    ensures
        final(out)@ == old(out)@ + join_blank(parts.deep_view().skip(idx as int)),
    decreases parts@.len() - idx,
{
    let ghost dv = parts.deep_view();
    if idx >= parts.len() {
        proof {
            assert(out@ =~= old(out)@ + join_blank(dv.skip(idx as int)));
        }
        return ;
    }
    proof {
        assert(dv.skip(idx as int)[0] == dv[idx as int]);
        assert(dv[idx as int] =~= parts@[idx as int]@);
        assert(dv.skip(idx as int).drop_first() =~= dv.skip((idx + 1) as int));
    }
    let mut piece = crate::store::subrange_chars(&parts[idx], 0, parts[idx].len());
    proof {
        assert(parts@[idx as int]@.subrange(0, parts@[idx as int]@.len() as int)
            =~= parts@[idx as int]@);
    }
    out.append(&mut piece);
    if idx + 1 < parts.len() {
        push_str_chars(out, "\n\n");
        push_join_blank(out, parts, idx + 1);
        proof {
            assert(out@ =~= old(out)@ + join_blank(dv.skip(idx as int)));
        }
    } else {
        proof {
            assert(dv.skip(idx as int).len() == 1);
            assert(out@ =~= old(out)@ + join_blank(dv.skip(idx as int)));
        }
    }
}

/// A per-root handle for the durable memory surface: the root, its data
/// directory and record file, and the session, if one was set.
pub struct MemoryLogger {
    repo_root: String,
    memory_dir: String,
    memory_file: String,
    session_id: Option<String>,
}

impl MemoryLogger {
    /// The root this handle works under.
    pub closed spec fn root_spec(&self) -> Seq<char> {
        self.repo_root@
    }

    /// The record file this handle reads and writes.
    pub closed spec fn file_spec(&self) -> Seq<char> {
        self.memory_file@
    }

    /// The session the handle stamps into what it writes.
    pub closed spec fn session_spec(&self) -> Option<Seq<char>> {
        self.session_id.deep_view()
    }

    /// A handle under the given root, with the conventional data paths.
    pub fn new(repo_root: String) -> (r: MemoryLogger)
        ensures
            r.root_spec() == repo_root@,
            r.file_spec() == repo_root@ + "/.codex/memory/memory.jsonl"@,
            r.session_spec() is None,
    {
        let mut dir = str_to_chars(repo_root.as_str());
        push_str_chars(&mut dir, "/.codex/memory");
        let mut file = str_to_chars(repo_root.as_str());
        push_str_chars(&mut file, "/.codex/memory/memory.jsonl");
        MemoryLogger {
            repo_root,
            memory_dir: chars_to_string(&dir),
            memory_file: chars_to_string(&file),
            session_id: None,
        }
    }

    /// Stamps the session the handle writes under.
    pub fn set_session_id(&mut self, id: String)
        ensures
            final(self).session_spec() == Some(id@),
            final(self).root_spec() == old(self).root_spec(),
            final(self).file_spec() == old(self).file_spec(),
    {
        self.session_id = Some(id);
    }

    /// Builds the durable preamble: recalls from the store under the given
    /// clock with sixteen items and twice the length budget in tokens, and
    /// folds the durable items into the capped text.
    pub fn build_durable_preamble(
        &self,
        store: &mut JsonlMemoryStore,
        now_rfc3339: String,
        max_len: usize,
    ) -> (r: Option<String>)
        ensures
            ({
                let tcap: int = if max_len > usize::MAX / 2 {
                    usize::MAX as int
                } else {
                    2 * max_len
                };
                let ctxv = crate::recall::CtxView {
                    current_file: None,
                    crate_name: None,
                    language: None,
                    command: None,
                    now_rfc3339: now_rfc3339@,
                    item_cap: 16,
                    token_cap: tcap,
                };
                match crate::recall::rfc3339_millis(now_rfc3339@) {
                    None => r is None && final(store)@ == old(store)@,
                    Some(now) => ({
                        let active = crate::store::sort_desc(
                            crate::store::filter_items(
                                crate::store::lww(old(store)@),
                                None,
                                Some(crate::types::Status::Active),
                            ),
                        );
                        let sel = crate::recall::select_spec(
                            crate::recall::rank_spec(
                                active,
                                crate::recall::tokens_spec(""@),
                                ctxv,
                                now,
                            ),
                            16,
                            tcap,
                            0,
                        );
                        let got = sel.map_values(
                            |v: crate::types::ItemView| crate::recall::bump(v, now_rfc3339@),
                        );
                        &&& final(store)@ == crate::recall::apply_updates(
                            old(store)@,
                            sel,
                            now_rfc3339@,
                        )
                        &&& (match r {
                            Some(s) => preamble_spec(got, max_len as int) == Some(s@),
                            None => preamble_spec(got, max_len as int) is None,
                        })
                    }),
                }
            }),
    {
        let tcap: usize = if max_len > usize::MAX / 2 {
            usize::MAX
        } else {
            max_len * 2
        };
        let ctx = RecallContext {
            repo_root: Some(self.repo_root.clone()),
            dir: None,
            current_file: None,
            crate_name: None,
            language: None,
            command: None,
            now_rfc3339,
            item_cap: 16,
            token_cap: tcap,
        };
        let items = match recall(store, "", &ctx) {
            Ok(items) => items,
            Err(_) => {
                return None;
            },
        };
        build_preamble_from(&items, max_len)
    }
}


/// One activity-log line the durable surface writes: a typed entry with
/// plain fields and an empty metadata object.
pub struct LogEntry {
    pub content: String,
    pub files: Vec<String>,
    pub id: String,
    pub repo: String,
    pub session_id: Option<String>,
    pub source: String,
    pub tags: Vec<String>,
    pub ts: String,
    pub entry_type: String,
}

/// Mathematical value of a log entry.
#[verifier::ext_equal]
pub ghost struct LogView {
    pub content: Seq<char>,
    pub files: Seq<Seq<char>>,
    pub id: Seq<char>,
    pub repo: Seq<char>,
    pub session_id: Option<Seq<char>>,
    pub source: Seq<char>,
    pub tags: Seq<Seq<char>>,
    pub ts: Seq<char>,
    pub entry_type: Seq<char>,
}

impl View for LogEntry {
    type V = LogView;

    open spec fn view(&self) -> LogView {
        LogView {
            content: self.content@,
            files: self.files.deep_view(),
            id: self.id@,
            repo: self.repo@,
            session_id: self.session_id.deep_view(),
            source: self.source@,
            tags: self.tags.deep_view(),
            ts: self.ts@,
            entry_type: self.entry_type@,
        }
    }
}

/// The canonical line encoding of a log entry, keys in name order, the
/// metadata empty.
pub open spec fn enc_log(v: LogView) -> Seq<char> {
    "{\"content\":"@ + crate::codec::enc_str(v.content) + ",\"files\":"@
        + crate::codec::enc_str_array(v.files) + ",\"id\":"@ + crate::codec::enc_str(v.id)
        + ",\"metadata\":{},\"repo\":"@ + crate::codec::enc_str(v.repo) + ",\"session_id\":"@
        + crate::item_codec::enc_opt_str(v.session_id) + ",\"source\":"@ + crate::codec::enc_str(
        v.source,
    ) + ",\"tags\":"@ + crate::codec::enc_str_array(v.tags) + ",\"ts\":"@ + crate::codec::enc_str(
        v.ts,
    ) + ",\"type\":"@ + crate::codec::enc_str(v.entry_type) + "}"@
}

/// Parses one encoded log entry, yielding its value and the rest.
pub open spec fn p_log(s: Seq<char>) -> Option<(LogView, Seq<char>)> {
    match crate::codec::p_lit(s, "{\"content\":"@) {
        None => None,
        Some(r1) => match crate::codec::p_str(r1) {
            None => None,
            Some((content, r2)) => match crate::codec::p_lit(r2, ",\"files\":"@) {
                None => None,
                Some(r3) => match crate::codec::p_str_array(r3) {
                    None => None,
                    Some((files, r4)) => match crate::codec::p_lit(r4, ",\"id\":"@) {
                        None => None,
                        Some(r5) => match crate::codec::p_str(r5) {
                            None => None,
                            Some((id, r6)) => match crate::codec::p_lit(
                                r6,
                                ",\"metadata\":{},\"repo\":"@,
                            ) {
                                None => None,
                                Some(r7) => match crate::codec::p_str(r7) {
                                    None => None,
                                    Some((repo, r8)) => p_log_rest(content, files, id, repo, r8),
                                },
                            },
                        },
                    },
                },
            },
        },
    }
}

/// Continues a log-entry parse after the repo field.
pub open spec fn p_log_rest(
    content: Seq<char>,
    files: Seq<Seq<char>>,
    id: Seq<char>,
    repo: Seq<char>,
    r8: Seq<char>,
) -> Option<(LogView, Seq<char>)> {
    match crate::codec::p_lit(r8, ",\"session_id\":"@) {
        None => None,
        Some(r9) => match crate::item_codec::p_opt_str(r9) {
            None => None,
            Some((session_id, r10)) => match crate::codec::p_lit(r10, ",\"source\":"@) {
                None => None,
                Some(r11) => match crate::codec::p_str(r11) {
                    None => None,
                    Some((source, r12)) => match crate::codec::p_lit(r12, ",\"tags\":"@) {
                        None => None,
                        Some(r13) => match crate::codec::p_str_array(r13) {
                            None => None,
                            Some((tags, r14)) => match crate::codec::p_lit(r14, ",\"ts\":"@) {
                                None => None,
                                Some(r15) => match crate::codec::p_str(r15) {
                                    None => None,
                                    Some((ts, r16)) => match crate::codec::p_lit(
                                        r16,
                                        ",\"type\":"@,
                                    ) {
                                        None => None,
                                        Some(r17) => match crate::codec::p_str(r17) {
                                            None => None,
                                            Some((entry_type, r18)) => match crate::codec::p_lit(
                                                r18,
                                                "}"@,
                                            ) {
                                                None => None,
                                                Some(r19) => Some(
                                                    (
                                                        LogView {
                                                            content,
                                                            files,
                                                            id,
                                                            repo,
                                                            session_id,
                                                            source,
                                                            tags,
                                                            ts,
                                                            entry_type,
                                                        },
                                                        r19,
                                                    ),
                                                ),
                                            },
                                        },
                                    },
                                },
                            },
                        },
                    },
                },
            },
        },
    }
}

/// Parses a whole line as one log entry; nothing may follow.
#[verifier::opaque]
pub open spec fn p_log_line(s: Seq<char>) -> Option<LogView> {
    match p_log(s) {
        Some((v, rest)) => if rest.len() == 0 {
            Some(v)
        } else {
            None
        },
        None => None,
    }
}

/// Parses one encoded log entry at the cursor.
#[verifier::rlimit(100)]
fn parse_log_at(s: &Vec<char>, i: usize) -> (r: Option<(LogEntry, usize)>)
    requires
        i <= s@.len(),
    ensures
        match r {
            Some((e, j)) => i <= j <= s@.len() && p_log(s@.skip(i as int)) == Some(
                (e@, s@.skip(j as int)),
            ),
            None => p_log(s@.skip(i as int)) is None,
        },
{
    let j1 = match crate::codec::expect_lit(s, i, "{\"content\":") {
        Some(j) => j,
        None => {
            return None;
        },
    };
    let (content, j2) = match crate::codec::parse_string_at(s, j1) {
        Some(x) => x,
        None => {
            return None;
        },
    };
    let j3 = match crate::codec::expect_lit(s, j2, ",\"files\":") {
        Some(j) => j,
        None => {
            return None;
        },
    };
    let (files, j4) = match crate::codec::parse_str_array_at(s, j3) {
        Some(x) => x,
        None => {
            return None;
        },
    };
    let j5 = match crate::codec::expect_lit(s, j4, ",\"id\":") {
        Some(j) => j,
        None => {
            return None;
        },
    };
    let (id, j6) = match crate::codec::parse_string_at(s, j5) {
        Some(x) => x,
        None => {
            return None;
        },
    };
    let j7 = match crate::codec::expect_lit(s, j6, ",\"metadata\":{},\"repo\":") {
        Some(j) => j,
        None => {
            return None;
        },
    };
    let (repo, j8) = match crate::codec::parse_string_at(s, j7) {
        Some(x) => x,
        None => {
            return None;
        },
    };
    let j9 = match crate::codec::expect_lit(s, j8, ",\"session_id\":") {
        Some(j) => j,
        None => {
            return None;
        },
    };
    let (session_id, j10) = match crate::item_codec::parse_opt_str_at(s, j9) {
        Some(x) => x,
        None => {
            return None;
        },
    };
    let j11 = match crate::codec::expect_lit(s, j10, ",\"source\":") {
        Some(j) => j,
        None => {
            return None;
        },
    };
    let (source, j12) = match crate::codec::parse_string_at(s, j11) {
        Some(x) => x,
        None => {
            return None;
        },
    };
    let j13 = match crate::codec::expect_lit(s, j12, ",\"tags\":") {
        Some(j) => j,
        None => {
            return None;
        },
    };
    let (tags, j14) = match crate::codec::parse_str_array_at(s, j13) {
        Some(x) => x,
        None => {
            return None;
        },
    };
    let j15 = match crate::codec::expect_lit(s, j14, ",\"ts\":") {
        Some(j) => j,
        None => {
            return None;
        },
    };
    let (ts, j16) = match crate::codec::parse_string_at(s, j15) {
        Some(x) => x,
        None => {
            return None;
        },
    };
    let j17 = match crate::codec::expect_lit(s, j16, ",\"type\":") {
        Some(j) => j,
        None => {
            return None;
        },
    };
    let (entry_type, j18) = match crate::codec::parse_string_at(s, j17) {
        Some(x) => x,
        None => {
            return None;
        },
    };
    let j19 = match crate::codec::expect_lit(s, j18, "}") {
        Some(j) => j,
        None => {
            return None;
        },
    };
    let e = LogEntry {
        content: chars_to_string(&content),
        files,
        id: chars_to_string(&id),
        repo: chars_to_string(&repo),
        session_id,
        source: chars_to_string(&source),
        tags,
        ts: chars_to_string(&ts),
        entry_type: chars_to_string(&entry_type),
    };
    proof {
        assert(p_log(s@.skip(i as int)) == Some((e@, s@.skip(j19 as int))));
    }
    Some((e, j19))
}

/// Parses a whole line as one log entry.
pub fn parse_log_line(line: &Vec<char>) -> (r: Option<LogEntry>)
    ensures
        match r {
            Some(e) => p_log_line(line@) == Some(e@),
            None => p_log_line(line@) is None,
        },
{
    proof {
        reveal(p_log_line);
        assert(line@.skip(0) =~= line@);
    }
    match parse_log_at(line, 0) {
        None => None,
        Some((e, j)) => if j == line.len() {
            proof {
                assert(line@.skip(j as int).len() == 0);
            }
            Some(e)
        } else {
            proof {
                assert(line@.skip(j as int).len() > 0);
            }
            None
        },
    }
}

/// Writes the canonical line encoding of a log entry, without the newline.
#[verifier::rlimit(100)]
pub fn encode_log(e: &LogEntry) -> (r: Vec<char>)
    ensures
        r@ == enc_log(e@),
{
    let mut out: Vec<char> = Vec::new();
    push_str_chars(&mut out, "{\"content\":");
    let cs = str_to_chars(e.content.as_str());
    crate::codec::push_quoted(&mut out, &cs);
    push_str_chars(&mut out, ",\"files\":");
    crate::codec::push_str_array(&mut out, &e.files);
    push_str_chars(&mut out, ",\"id\":");
    let cs = str_to_chars(e.id.as_str());
    crate::codec::push_quoted(&mut out, &cs);
    push_str_chars(&mut out, ",\"metadata\":{},\"repo\":");
    let cs = str_to_chars(e.repo.as_str());
    crate::codec::push_quoted(&mut out, &cs);
    push_str_chars(&mut out, ",\"session_id\":");
    match &e.session_id {
        None => push_str_chars(&mut out, "null"),
        Some(v) => {
            let cs = str_to_chars(v.as_str());
            crate::codec::push_quoted(&mut out, &cs);
        },
    }
    push_str_chars(&mut out, ",\"source\":");
    let cs = str_to_chars(e.source.as_str());
    crate::codec::push_quoted(&mut out, &cs);
    push_str_chars(&mut out, ",\"tags\":");
    crate::codec::push_str_array(&mut out, &e.tags);
    push_str_chars(&mut out, ",\"ts\":");
    let cs = str_to_chars(e.ts.as_str());
    crate::codec::push_quoted(&mut out, &cs);
    push_str_chars(&mut out, ",\"type\":");
    let cs = str_to_chars(e.entry_type.as_str());
    crate::codec::push_quoted(&mut out, &cs);
    push_str_chars(&mut out, "}");
    proof {
        assert(out@ =~= enc_log(e@));
    }
    out
}

/// One durable view of the activity log: a preference or a summary.
pub struct DurableItem {
    pub id: String,
    pub entry_type: String,
    pub content: String,
}

/// Mathematical value of a durable view.
#[verifier::ext_equal]
pub ghost struct DurView {
    pub id: Seq<char>,
    pub entry_type: Seq<char>,
    pub content: Seq<char>,
}

impl View for DurableItem {
    type V = DurView;

    open spec fn view(&self) -> DurView {
        DurView { id: self.id@, entry_type: self.entry_type@, content: self.content@ }
    }
}

/// The views of a vector of durable items.
pub open spec fn durs_view(v: Seq<DurableItem>) -> Seq<DurView> {
    v.map_values(|d: DurableItem| d@)
}

/// Whether a log entry is durable: a preference or a summary.
pub open spec fn is_durable(v: LogView) -> bool {
    v.entry_type == "pref"@ || v.entry_type == "summary"@
}

/// The durable projection of a log entry.
pub open spec fn dur_of(v: LogView) -> DurView {
    DurView { id: v.id, entry_type: v.entry_type, content: v.content }
}

/// The durable log entries among the lines, in order; blank lines and
/// lines of any other shape are passed over.
pub open spec fn durable_entries(lines: Seq<Seq<char>>, i: int) -> Seq<LogView>
    decreases lines.len() - i,
{
    if i < 0 || i >= lines.len() {
        Seq::empty()
    } else {
        let rest = durable_entries(lines, i + 1);
        match p_log_line(crate::store::trim_spec(lines[i])) {
            Some(v) => if is_durable(v) {
                seq![v] + rest
            } else {
                rest
            },
            None => rest,
        }
    }
}

/// Collects the durable log entries of a text.
fn collect_durables(content: &str) -> (r: Vec<LogEntry>)
    ensures
        r@.map_values(|e: LogEntry| e@) == durable_entries(
            crate::store::line_split(content@),
            0,
        ),
{
    let cs = str_to_chars(content);
    let lines = crate::store::split_lines_chars(&cs);
    let ghost dv = lines.deep_view();
    let mut out: Vec<LogEntry> = Vec::new();
    let mut i: usize = 0;
    proof {
        assert(out@.map_values(|e: LogEntry| e@) =~= Seq::<LogView>::empty());
    }
    while i < lines.len()
        invariant
            i <= lines@.len(),
            dv == lines.deep_view(),
            dv == crate::store::line_split(content@),
            dv.len() == lines@.len(),
            durable_entries(dv, 0) == out@.map_values(|e: LogEntry| e@) + durable_entries(
                dv,
                i as int,
            ),
        decreases lines@.len() - i,
    {
        proof {
            assert(dv[i as int] =~= lines@[i as int]@);
        }
        let t = crate::store::trim_chars(&lines[i]);
        match parse_log_line(&t) {
            Some(e) => {
                proof {
                    reveal_strlit("pref");
                    reveal_strlit("summary");
                }
                let d1 = crate::text::str_eq(e.entry_type.as_str(), "pref");
                let d2 = crate::text::str_eq(e.entry_type.as_str(), "summary");
                if d1 || d2 {
                    let ghost prev = out@.map_values(|e: LogEntry| e@);
                    out.push(e);
                    proof {
                        assert(out@.map_values(|e: LogEntry| e@) =~= prev.push(
                            out@[out@.len() - 1]@,
                        ));
                        assert(prev + (seq![out@[out@.len() - 1]@] + durable_entries(
                            dv,
                            (i + 1) as int,
                        )) =~= out@.map_values(|e: LogEntry| e@) + durable_entries(
                            dv,
                            (i + 1) as int,
                        ));
                    }
                }
            },
            None => {},
        }
        i = i + 1;
    }
    proof {
        assert(durable_entries(dv, dv.len() as int) =~= Seq::<LogView>::empty());
        assert(out@.map_values(|e: LogEntry| e@) + Seq::<LogView>::empty() =~= out@.map_values(
            |e: LogEntry| e@,
        ));
    }
    out
}

/// The last `limit` entries of a sequence.
pub open spec fn last_n(d: Seq<LogView>, limit: int) -> Seq<LogView> {
    if d.len() > limit {
        d.skip(d.len() - limit)
    } else {
        d
    }
}

impl MemoryLogger {
    /// The log line recording a preference, newline included; the caller
    /// supplies the fresh id and the clock.
    pub fn add_pref(&self, text: &str, id: &str, ts: &str) -> (r: String)
        ensures
            r@ == enc_log(
                LogView {
                    content: text@,
                    files: Seq::empty(),
                    id: id@,
                    repo: self.root_spec(),
                    session_id: self.session_spec(),
                    source: "codex-tui"@,
                    tags: seq!["pref"@],
                    ts: ts@,
                    entry_type: "pref"@,
                },
            ) + seq!['\n'],
    {
        let mut tags: Vec<String> = Vec::new();
        tags.push("pref".to_owned());
        let files: Vec<String> = Vec::new();
        let e = LogEntry {
            content: text.to_owned(),
            files,
            id: id.to_owned(),
            repo: self.repo_root.clone(),
            session_id: crate::types::clone_opt_string(&self.session_id),
            source: "codex-tui".to_owned(),
            tags,
            ts: ts.to_owned(),
            entry_type: "pref".to_owned(),
        };
        proof {
            assert(e.files.deep_view() =~= Seq::<Seq<char>>::empty());
            assert(e.tags.deep_view() =~= seq!["pref"@]);
        }
        let mut cs = encode_log(&e);
        cs.push('\n');
        chars_to_string(&cs)
    }

    /// The newest durable entries of the log text, oldest first, at most
    /// `limit` of them.
    pub fn list_durable(&self, content: &str, limit: usize) -> (r: Vec<DurableItem>)
        ensures
            durs_view(r@) == last_n(
                durable_entries(crate::store::line_split(content@), 0),
                limit as int,
            ).map_values(|v: LogView| dur_of(v)),
    {
        let all = collect_durables(content);
        let ghost av = all@.map_values(|e: LogEntry| e@);
        let start: usize = if all.len() > limit {
            all.len() - limit
        } else {
            0
        };
        let mut out: Vec<DurableItem> = Vec::new();
        let mut i: usize = start;
        proof {
            assert(durs_view(out@).len() == 0);
        }
        while i < all.len()
            invariant
                start <= i <= all@.len(),
                av == all@.map_values(|e: LogEntry| e@),
                av.len() == all@.len(),
                start == (if all@.len() > limit {
                    all@.len() - limit
                } else {
                    0
                }),
                durs_view(out@).len() == i - start,
                forall|k: int|
                    0 <= k < i - start ==> durs_view(out@)[k] == dur_of(av[start + k]),
            decreases all@.len() - i,
        {
            let ghost prev = durs_view(out@);
            out.push(
                DurableItem {
                    id: all[i].id.clone(),
                    entry_type: all[i].entry_type.clone(),
                    content: all[i].content.clone(),
                },
            );
            proof {
                assert(durs_view(out@) =~= prev.push(dur_of(av[i as int])));
            }
            i = i + 1;
        }
        proof {
            assert(durs_view(out@) =~= last_n(av, limit as int).map_values(
                |v: LogView| dur_of(v),
            ));
        }
        out
    }

    /// The durable entries whose folded content holds the folded query, at
    /// most `limit` of them, oldest first.
    pub fn search_durable(&self, content: &str, query: &str, limit: usize) -> (r: Vec<
        DurableItem,
    >)
        ensures
            durs_view(r@) == search_spec(
                durable_entries(crate::store::line_split(content@), 0),
                query@,
                limit as int,
            ),
    {
        let all = collect_durables(content);
        let ghost av = all@.map_values(|e: LogEntry| e@);
        let qc = str_to_chars(query);
        let ql = crate::text::lower_chars(&qc);
        let mut out: Vec<DurableItem> = Vec::new();
        let mut i: usize = 0;
        proof {
            assert(av.skip(0) =~= av);
            assert(durs_view(out@) + search_spec(av, query@, limit as int) =~= search_spec(
                av,
                query@,
                limit as int,
            ));
        }
        while i < all.len() && out.len() < limit
            invariant
                i <= all@.len(),
                av == all@.map_values(|e: LogEntry| e@),
                av.len() == all@.len(),
                out@.len() <= limit,
                ql@ == lower_seq(query@),
                search_spec(av, query@, limit as int) == durs_view(out@) + search_spec(
                    av.skip(i as int),
                    query@,
                    limit - out@.len(),
                ),
            decreases all@.len() - i,
        {
            proof {
                assert(av.skip(i as int)[0] == av[i as int]);
                assert(av[i as int] == all@[i as int]@);
                assert(av.skip(i as int).drop_first() =~= av.skip((i + 1) as int));
            }
            let cc = str_to_chars(all[i].content.as_str());
            let cl = crate::text::lower_chars(&cc);
            if crate::text::chars_contain(&cl, &ql) {
                let ghost prev = durs_view(out@);
                out.push(
                    DurableItem {
                        id: all[i].id.clone(),
                        entry_type: all[i].entry_type.clone(),
                        content: all[i].content.clone(),
                    },
                );
                proof {
                    assert(durs_view(out@) =~= prev.push(dur_of(av[i as int])));
                    assert(prev + (seq![dur_of(av[i as int])] + search_spec(
                        av.skip((i + 1) as int),
                        query@,
                        limit - out@.len(),
                    )) =~= durs_view(out@) + search_spec(
                        av.skip((i + 1) as int),
                        query@,
                        limit - out@.len(),
                    ));
                }
            }
            i = i + 1;
        }
        proof {
            if i >= av.len() {
                assert(av.skip(i as int).len() == 0);
            }
            assert(search_spec(av.skip(i as int), query@, limit - out@.len()) =~= Seq::<
                DurView,
            >::empty());
            assert(durs_view(out@) + Seq::<DurView>::empty() =~= durs_view(out@));
        }
        out
    }

    /// The newest durable entries carrying the tag, folded for case, at
    /// most `limit` of them, oldest first.
    pub fn list_durable_tagged(&self, content: &str, limit: usize, tag: &str) -> (r: Vec<
        DurableItem,
    >)
        ensures
            durs_view(r@) == last_n(
                tagged_entries(durable_entries(crate::store::line_split(content@), 0), tag@),
                limit as int,
            ).map_values(|v: LogView| dur_of(v)),
    {
        let all = collect_durables(content);
        let ghost av = all@.map_values(|e: LogEntry| e@);
        let mut hit: Vec<LogEntry> = Vec::new();
        let mut i: usize = 0;
        proof {
            assert(av.skip(0) =~= av);
            assert(hit@.map_values(|e: LogEntry| e@) + tagged_entries(av.skip(0), tag@)
                =~= tagged_entries(av, tag@));
        }
        while i < all.len()
            invariant
                i <= all@.len(),
                av == all@.map_values(|e: LogEntry| e@),
                av.len() == all@.len(),
                tagged_entries(av, tag@) == hit@.map_values(|e: LogEntry| e@) + tagged_entries(
                    av.skip(i as int),
                    tag@,
                ),
            decreases all@.len() - i,
        {
            proof {
                assert(av.skip(i as int)[0] == av[i as int]);
                assert(av[i as int] == all@[i as int]@);
                assert(av.skip(i as int).drop_first() =~= av.skip((i + 1) as int));
            }
            let tg = tag.to_owned();
            if has_tag_exec(&all[i].tags, &tg) {
                let ghost prev = hit@.map_values(|e: LogEntry| e@);
                hit.push(all[i].duplicate_entry());
                proof {
                    assert(hit@.map_values(|e: LogEntry| e@) =~= prev.push(av[i as int]));
                    assert(prev + (seq![av[i as int]] + tagged_entries(
                        av.skip((i + 1) as int),
                        tag@,
                    )) =~= hit@.map_values(|e: LogEntry| e@) + tagged_entries(
                        av.skip((i + 1) as int),
                        tag@,
                    ));
                }
            }
            i = i + 1;
        }
        proof {
            assert(av.skip(av.len() as int).len() == 0);
            assert(tagged_entries(av.skip(av.len() as int), tag@) =~= Seq::<LogView>::empty());
            assert(hit@.map_values(|e: LogEntry| e@) + Seq::<LogView>::empty() =~= hit@.map_values(
                |e: LogEntry| e@,
            ));
        }
        let ghost hv = hit@.map_values(|e: LogEntry| e@);
        let start: usize = if hit.len() > limit {
            hit.len() - limit
        } else {
            0
        };
        let mut out: Vec<DurableItem> = Vec::new();
        let mut j: usize = start;
        while j < hit.len()
            invariant
                start <= j <= hit@.len(),
                hv == hit@.map_values(|e: LogEntry| e@),
                hv.len() == hit@.len(),
                start == (if hit@.len() > limit {
                    hit@.len() - limit
                } else {
                    0
                }),
                durs_view(out@).len() == j - start,
                forall|k: int|
                    0 <= k < j - start ==> durs_view(out@)[k] == dur_of(hv[start + k]),
            decreases hit@.len() - j,
        {
            let ghost prev = durs_view(out@);
            out.push(
                DurableItem {
                    id: hit[j].id.clone(),
                    entry_type: hit[j].entry_type.clone(),
                    content: hit[j].content.clone(),
                },
            );
            proof {
                assert(durs_view(out@) =~= prev.push(dur_of(hv[j as int])));
            }
            j = j + 1;
        }
        proof {
            assert(durs_view(out@) =~= last_n(hv, limit as int).map_values(
                |v: LogView| dur_of(v),
            ));
        }
        out
    }

    /// Drops every durable line whose id starts with the prefix; an empty
    /// prefix drops nothing.  Returns the rewritten text and whether any
    /// line was dropped.
    pub fn delete_by_prefix(&self, content: &str, prefix: &str) -> (r: (String, bool))
        ensures
            ({
                let spec = delete_prefix_spec(
                    crate::store::line_split(content@),
                    0,
                    prefix@,
                );
                &&& r.0@ == spec.0
                &&& r.1 == spec.1
            }),
    {
        let cs = str_to_chars(content);
        let lines = crate::store::split_lines_chars(&cs);
        let ghost dv = lines.deep_view();
        let mut out: Vec<char> = Vec::new();
        let mut changed = false;
        let mut i: usize = 0;
        proof {
            assert(out@ =~= Seq::<char>::empty());
        }
        while i < lines.len()
            invariant
                i <= lines@.len(),
                dv == lines.deep_view(),
                dv == crate::store::line_split(content@),
                dv.len() == lines@.len(),
                delete_prefix_spec(dv, 0, prefix@) == delete_prefix_acc(
                    dv,
                    i as int,
                    prefix@,
                    out@,
                    changed,
                ),
            decreases lines@.len() - i,
        {
            proof {
                assert(dv[i as int] =~= lines@[i as int]@);
            }
            let t = crate::store::trim_chars(&lines[i]);
            let mut drop_line = false;
            if prefix.unicode_len() > 0 {
                match parse_log_line(&t) {
                    Some(e) => {
                        proof {
                            reveal_strlit("pref");
                            reveal_strlit("summary");
                        }
                        let d1 = crate::text::str_eq(e.entry_type.as_str(), "pref");
                        let d2 = crate::text::str_eq(e.entry_type.as_str(), "summary");
                        if (d1 || d2) && crate::text::str_starts_with(e.id.as_str(), prefix) {
                            drop_line = true;
                        }
                    },
                    None => {},
                }
            }
            if drop_line {
                changed = true;
            } else {
                let ghost prev0 = out@;
                let mut piece = crate::store::subrange_chars(&lines[i], 0, lines[i].len());
                proof {
                    assert(lines@[i as int]@.subrange(0, lines@[i as int]@.len() as int)
                        =~= dv[i as int]);
                }
                out.append(&mut piece);
                out.push('\n');
                proof {
                    assert(out@ =~= prev0 + dv[i as int] + seq!['\n']);
                }
            }
            i = i + 1;
        }
        (chars_to_string(&out), changed)
    }
}

impl LogEntry {
    /// A copy with the same contents, known to the verifier.
    pub fn duplicate_entry(&self) -> (r: LogEntry)
        ensures
            r@ == self@,
    {
        LogEntry {
            content: self.content.clone(),
            files: crate::types::clone_strings(&self.files),
            id: self.id.clone(),
            repo: self.repo.clone(),
            session_id: crate::types::clone_opt_string(&self.session_id),
            source: self.source.clone(),
            tags: crate::types::clone_strings(&self.tags),
            ts: self.ts.clone(),
            entry_type: self.entry_type.clone(),
        }
    }
}

/// Whether some tag matches, folded for case.
fn has_tag_exec(tags: &Vec<String>, tag: &String) -> (r: bool)
    ensures
        r == crate::recall::fold_hit(tag@, tags.deep_view()),
{
    let ghost dv = tags.deep_view();
    let tc = str_to_chars(tag.as_str());
    let tl = crate::text::lower_chars(&tc);
    let mut i: usize = 0;
    while i < tags.len()
        invariant
            i <= tags@.len(),
            dv == tags.deep_view(),
            dv.len() == tags@.len(),
            tl@ == lower_seq(tag@),
            forall|k: int| 0 <= k < i ==> lower_seq(#[trigger] dv[k]) != lower_seq(tag@),
        decreases tags@.len() - i,
    {
        proof {
            assert(dv[i as int] =~= tags@[i as int]@);
        }
        let cc = str_to_chars(tags[i].as_str());
        let cl = crate::text::lower_chars(&cc);
        if crate::text::chars_eq(&cl, &tl) {
            proof {
                assert(lower_seq(dv[i as int]) == lower_seq(tag@));
            }
            return true;
        }
        i = i + 1;
    }
    proof {
        if crate::recall::fold_hit(tag@, dv) {
            let k = choose|k: int|
                0 <= k < dv.len() && lower_seq(#[trigger] dv[k]) == lower_seq(tag@);
        }
    }
    false
}

/// The durable entries carrying the tag, folded for case.
pub open spec fn tagged_entries(d: Seq<LogView>, tag: Seq<char>) -> Seq<LogView>
    decreases d.len(),
{
    if d.len() == 0 {
        Seq::empty()
    } else if crate::recall::fold_hit(tag, d[0].tags) {
        seq![d[0]] + tagged_entries(d.drop_first(), tag)
    } else {
        tagged_entries(d.drop_first(), tag)
    }
}

/// The first `limit` durable entries whose folded content holds the
/// folded query, projected.
pub open spec fn search_spec(d: Seq<LogView>, query: Seq<char>, limit: int) -> Seq<DurView>
    decreases d.len(),
{
    if d.len() == 0 || limit <= 0 {
        Seq::empty()
    } else if crate::text::contains_seq(lower_seq(d[0].content), lower_seq(query)) {
        seq![dur_of(d[0])] + search_spec(d.drop_first(), query, limit - 1)
    } else {
        search_spec(d.drop_first(), query, limit)
    }
}

/// One step of prefix deletion folded over the lines from the cursor on.
pub open spec fn delete_prefix_acc(
    lines: Seq<Seq<char>>,
    i: int,
    prefix: Seq<char>,
    out: Seq<char>,
    changed: bool,
) -> (Seq<char>, bool)
    decreases lines.len() - i,
{
    if i < 0 || i >= lines.len() {
        (out, changed)
    } else {
        let dropped = prefix.len() > 0 && match p_log_line(crate::store::trim_spec(lines[i])) {
            Some(v) => is_durable(v) && crate::text::starts_with(v.id, prefix),
            None => false,
        };
        if dropped {
            delete_prefix_acc(lines, i + 1, prefix, out, true)
        } else {
            delete_prefix_acc(lines, i + 1, prefix, out + lines[i] + seq!['\n'], changed)
        }
    }
}

/// What prefix deletion makes of the lines.
pub open spec fn delete_prefix_spec(lines: Seq<Seq<char>>, i: int, prefix: Seq<char>) -> (
    Seq<char>,
    bool,
) {
    delete_prefix_acc(lines, i, prefix, Seq::empty(), false)
}

} // verus!
