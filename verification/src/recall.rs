//! The recall engine: ranks active items against a query and a context,
//! selects a budgeted subset, and writes back usage counters.
//!
//! Scores are exact integers in thousandths: a lexical overlap share, fixed
//! context bonuses, a frequency factor, and a temporal decay quantized to
//! thousandths per day of age.

use vstd::prelude::*;

use crate::store::filter_items;
use crate::store::has_id;
use crate::store::sort_desc;
use crate::store::update_spec;
use crate::store::JsonlMemoryStore;
use crate::text::chars_end_with;
use crate::text::chars_eq;
use crate::text::ends_with;
use crate::text::lower_chars;
use crate::text::lower_seq;
use crate::text::str_to_chars;
use crate::types::items_view;
use crate::types::CountersView;
use crate::types::ItemView;
use crate::types::MemoryItem;
use crate::types::Status;
use crate::types::StoreError;

verus! {

/// The moment a canonical timestamp names, in milliseconds since the epoch,
/// or nothing when the text is not a canonical timestamp.
pub uninterp spec fn rfc3339_millis(s: Seq<char>) -> Option<int>;

/// Relies on chrono's DateTime::parse_from_rfc3339 and timestamp_millis:
/// together they read a canonical timestamp to an epoch instant, a result
/// that depends on the characters alone.
#[verifier::external_body]
pub fn parse_rfc3339_millis(s: &str) -> (r: Option<i64>)
    ensures
        r matches Some(v) ==> rfc3339_millis(s@) == Some(v as int),
        r is None ==> rfc3339_millis(s@) is None,
{
    match chrono::DateTime::parse_from_rfc3339(s) {
        Ok(dt) => Some(dt.timestamp_millis()),
        Err(_) => None,
    }
}

/// Whether a character counts as part of a word.
pub uninterp spec fn alnum(c: char) -> bool;

/// Relies on char::is_alphanumeric: the result depends on the character
/// alone.
#[verifier::external_body]
fn is_alnum(c: char) -> (r: bool)
    ensures
        r == alnum(c),
{
    c.is_alphanumeric()
}

/// The length of the leading word.
pub open spec fn word_len(s: Seq<char>) -> int
    decreases s.len(),
{
    if s.len() == 0 || !alnum(s[0]) {
        0
    } else {
        1 + word_len(s.drop_first())
    }
}

/// The distinct lowercased words of a text, first occurrence first,
/// appended to the accumulator.
pub open spec fn tokens_acc(s: Seq<char>, acc: Seq<Seq<char>>) -> Seq<Seq<char>>
    decreases s.len(),
{
    if s.len() == 0 {
        acc
    } else if !alnum(s[0]) {
        tokens_acc(s.drop_first(), acc)
    } else {
        let k = word_len(s);
        if 0 < k <= s.len() {
            let t = lower_seq(s.take(k));
            if acc.contains(t) {
                tokens_acc(s.skip(k), acc)
            } else {
                tokens_acc(s.skip(k), acc.push(t))
            }
        } else {
            acc
        }
    }
}

/// The distinct lowercased words of a text.
pub open spec fn tokens_spec(s: Seq<char>) -> Seq<Seq<char>> {
    tokens_acc(s, Seq::empty())
}

/// Whether a token occurs in a vector of tokens.
fn tokens_contain(toks: &Vec<Vec<char>>, t: &Vec<char>) -> (r: bool)
    ensures
        r == toks.deep_view().contains(t@),
{
    let ghost dv = toks.deep_view();
    let mut i: usize = 0;
    while i < toks.len()
        invariant
            i <= toks@.len(),
            dv == toks.deep_view(),
            dv.len() == toks@.len(),
            forall|k: int| 0 <= k < i ==> dv[k] != t@,
        decreases toks@.len() - i,
    {
        proof {
            assert(dv[i as int] =~= toks@[i as int]@);
        }
        if chars_eq(&toks[i], t) {
            proof {
                assert(dv.contains(t@));
            }
            return true;
        }
        i = i + 1;
    }
    proof {
        if dv.contains(t@) {
            let k = choose|k: int| 0 <= k < dv.len() && dv[k] == t@;
        }
    }
    false
}

/// Splits a text into its distinct lowercased words.
pub fn tokenize(s: &Vec<char>) -> (r: Vec<Vec<char>>)
    ensures
        r.deep_view() == tokens_spec(s@),
{
    let n = s.len();
    let mut out: Vec<Vec<char>> = Vec::new();
    let mut i: usize = 0;
    proof {
        assert(s@.skip(0) =~= s@);
        assert(out.deep_view() =~= Seq::<Seq<char>>::empty());
    }
    while i < n
        invariant
            i <= n,
            n == s@.len(),
            tokens_spec(s@) == tokens_acc(s@.skip(i as int), out.deep_view()),
        decreases n - i,
    {
        proof {
            assert(s@.skip(i as int)[0] == s@[i as int]);
            assert(s@.skip(i as int).drop_first() =~= s@.skip((i + 1) as int));
        }
        if !is_alnum(s[i]) {
            i = i + 1;
        } else {
            let mut j: usize = i;
            while j < n && is_alnum(s[j])
                invariant
                    i <= j <= n,
                    n == s@.len(),
                    word_len(s@.skip(i as int)) == (j - i) + word_len(s@.skip(j as int)),
                decreases n - j,
            {
                proof {
                    assert(s@.skip(j as int)[0] == s@[j as int]);
                    assert(s@.skip(j as int).drop_first() =~= s@.skip((j + 1) as int));
                }
                j = j + 1;
            }
            proof {
                if j < n {
                    assert(s@.skip(j as int)[0] == s@[j as int]);
                } else {
                    assert(s@.skip(j as int).len() == 0);
                }
                assert(word_len(s@.skip(j as int)) == 0);
                assert(word_len(s@.skip(i as int)) == j - i);
                assert(s@.skip(i as int).take((j - i) as int) =~= s@.subrange(
                    i as int,
                    j as int,
                ));
                assert(s@.skip(i as int).skip((j - i) as int) =~= s@.skip(j as int));
            }
            let word = crate::store::subrange_chars(s, i, j);
            let t = lower_chars(&word);
            if tokens_contain(&out, &t) {
            } else {
                let ghost prev = out.deep_view();
                proof {
                    assert(t.deep_view() =~= t@);
                }
                out.push(t);
                proof {
                    assert(out.deep_view() =~= prev.push(lower_seq(s@.subrange(
                        i as int,
                        j as int,
                    ))));
                }
            }
            i = j;
        }
    }
    proof {
        assert(s@.skip(n as int).len() == 0);
    }
    out
}

/// How many query tokens also occur among the content tokens.
pub open spec fn count_common(q: Seq<Seq<char>>, c: Seq<Seq<char>>) -> int {
    q.filter(|t: Seq<char>| c.contains(t)).len() as int
}

/// Counts the query tokens that also occur among the content tokens.
fn count_common_exec(q: &Vec<Vec<char>>, c: &Vec<Vec<char>>) -> (r: usize)
    ensures
        r == count_common(q.deep_view(), c.deep_view()),
        r <= q@.len(),
{
    let ghost qv = q.deep_view();
    let ghost cv = c.deep_view();
    let mut count: usize = 0;
    let mut i: usize = 0;
    proof {
        reveal(Seq::filter);
        assert(qv.take(0) =~= Seq::<Seq<char>>::empty());
    }
    while i < q.len()
        invariant
            i <= q@.len(),
            qv == q.deep_view(),
            cv == c.deep_view(),
            qv.len() == q@.len(),
            count == qv.take(i as int).filter(|t: Seq<char>| cv.contains(t)).len(),
            count <= i,
        decreases q@.len() - i,
    {
        proof {
            reveal(Seq::filter);
            assert(qv.take((i + 1) as int).drop_last() =~= qv.take(i as int));
            assert(qv.take((i + 1) as int).last() == qv[i as int]);
            assert(qv[i as int] =~= q@[i as int]@);
        }
        if tokens_contain(c, &q[i]) {
            count = count + 1;
        }
        i = i + 1;
    }
    proof {
        assert(qv.take(qv.len() as int) =~= qv);
    }
    count
}

/// The whitespace-separated token count of a text, continuing a run when
/// the previous character was part of one.
pub open spec fn wtok_count(s: Seq<char>, in_tok: bool) -> int
    decreases s.len(),
{
    if s.len() == 0 {
        0
    } else {
        let ws = crate::store::is_ws(s[0]);
        (if !ws && !in_tok {
            1int
        } else {
            0int
        }) + wtok_count(s.drop_first(), !ws)
    }
}

/// Counts whitespace-separated tokens.
pub fn wtok_count_exec(s: &Vec<char>) -> (r: usize)
    ensures
        r == wtok_count(s@, false),
{
    let n = s.len();
    let mut count: usize = 0;
    let mut in_tok = false;
    let mut i: usize = 0;
    proof {
        assert(s@.skip(0) =~= s@);
    }
    while i < n
        invariant
            i <= n,
            n == s@.len(),
            count <= i,
            wtok_count(s@, false) == count + wtok_count(s@.skip(i as int), in_tok),
        decreases n - i,
    {
        proof {
            assert(s@.skip(i as int)[0] == s@[i as int]);
            assert(s@.skip(i as int).drop_first() =~= s@.skip((i + 1) as int));
        }
        let ws = crate::store::is_ws_exec(s[i]);
        if !ws && !in_tok {
            count = count + 1;
        }
        in_tok = !ws;
        i = i + 1;
    }
    proof {
        assert(s@.skip(n as int).len() == 0);
    }
    count
}

/// What the recall engine reads from its caller: context hints, the clock,
/// and the two budgets.
pub struct RecallContext {
    pub repo_root: Option<String>,
    pub dir: Option<String>,
    pub current_file: Option<String>,
    pub crate_name: Option<String>,
    pub language: Option<String>,
    pub command: Option<String>,
    pub now_rfc3339: String,
    pub item_cap: usize,
    pub token_cap: usize,
}

/// Mathematical value of a recall context.
#[verifier::ext_equal]
pub ghost struct CtxView {
    pub current_file: Option<Seq<char>>,
    pub crate_name: Option<Seq<char>>,
    pub language: Option<Seq<char>>,
    pub command: Option<Seq<char>>,
    pub now_rfc3339: Seq<char>,
    pub item_cap: int,
    pub token_cap: int,
}

impl View for RecallContext {
    type V = CtxView;

    open spec fn view(&self) -> CtxView {
        CtxView {
            current_file: self.current_file.deep_view(),
            crate_name: self.crate_name.deep_view(),
            language: self.language.deep_view(),
            command: self.command.deep_view(),
            now_rfc3339: self.now_rfc3339@,
            item_cap: self.item_cap as int,
            token_cap: self.token_cap as int,
        }
    }
}

/// The lexical share in thousandths: the common token count over the query
/// token count, zero when either side has no tokens.
pub open spec fn base_milli(q: Seq<Seq<char>>, c: Seq<Seq<char>>) -> int {
    if q.len() == 0 || c.len() == 0 {
        0
    } else {
        count_common(q, c) * 1000 / q.len() as int
    }
}

/// The context bonuses in thousandths: a file-suffix hit, an exact crate
/// hit, a case-folded language hit, and an exact command hit.
pub open spec fn bonus_milli(v: ItemView, ctx: CtxView) -> int {
    (match ctx.current_file {
        Some(f) => if suffix_hit(f, v.relevance_hints.files) {
            400int
        } else {
            0int
        },
        None => 0int,
    }) + (match ctx.crate_name {
        Some(c) => if eq_hit(c, v.relevance_hints.crates) {
            300int
        } else {
            0int
        },
        None => 0int,
    }) + (match ctx.language {
        Some(l) => if fold_hit(l, v.relevance_hints.languages) {
            200int
        } else {
            0int
        },
        None => 0int,
    }) + (match ctx.command {
        Some(cm) => if eq_hit(cm, v.relevance_hints.commands) {
            100int
        } else {
            0int
        },
        None => 0int,
    })
}

/// The decay fraction in thousandths for an age below one week.
pub open spec fn week_frac(r: int) -> int {
    if r == 0 { 1000 } else if r == 1 { 906 } else if r == 2 { 820 } else if r == 3 { 743 }
    else if r == 4 { 673 } else if r == 5 { 610 } else { 552 }
}

/// The decay fraction in thousandths: halved for each full week of age,
/// graded within the week, gone after ten weeks.
pub open spec fn week_decay(d: int) -> int {
    if d >= 70 {
        0
    } else {
        let k = d / 7;
        let r = d % 7;
        if k == 0 { week_frac(r) } else if k == 1 { week_frac(r) / 2 } else if k == 2 {
            week_frac(r) / 4
        } else if k == 3 { week_frac(r) / 8 } else if k == 4 { week_frac(r) / 16 } else if k == 5 {
            week_frac(r) / 32
        } else if k == 6 { week_frac(r) / 64 } else if k == 7 { week_frac(r) / 128 } else if k
            == 8 { week_frac(r) / 256 } else { week_frac(r) / 512 }
    }
}

/// The temporal decay of an item in thousandths, from its last use to the
/// given moment; an unused or unreadable stamp decays nothing.  A stamp at
/// or after the moment decays nothing either: the clamp is deliberate, as
/// the single writer's clock is monotone and a future stamp only arises
/// from a skewed clock, which earns no boost.
pub open spec fn decay_milli(v: ItemView, now: int) -> int {
    match v.counters.last_used_at {
        None => 1000,
        Some(ts) => match rfc3339_millis(ts) {
            None => 1000,
            Some(last) => if last >= now {
                1000
            } else {
                week_decay((now - last) / 86400000)
            },
        },
    }
}

/// An item's full score: lexical share plus bonuses, times the frequency
/// factor, times the decay, all in exact integer arithmetic.
pub open spec fn score_milli(v: ItemView, q: Seq<Seq<char>>, ctx: CtxView, now: int) -> int {
    (base_milli(q, tokens_spec(v.content)) + bonus_milli(v, ctx)) * (10
        + v.counters.used_count as int) * decay_milli(v, now)
}


/// Whether some entry of the list is a suffix of the text.
pub open spec fn suffix_hit(hay: Seq<char>, list: Seq<Seq<char>>) -> bool {
    exists|k: int| 0 <= k < list.len() && ends_with(hay, #[trigger] list[k])
}

/// Whether some entry of the list equals the text.
pub open spec fn eq_hit(x: Seq<char>, list: Seq<Seq<char>>) -> bool {
    exists|k: int| 0 <= k < list.len() && (#[trigger] list[k]) == x
}

/// Whether some entry of the list equals the text up to ASCII case.
pub open spec fn fold_hit(x: Seq<char>, list: Seq<Seq<char>>) -> bool {
    exists|k: int| 0 <= k < list.len() && lower_seq(#[trigger] list[k]) == lower_seq(x)
}

/// Whether some hint is a suffix of the given text.
fn any_suffix(hay: &String, list: &Vec<String>) -> (r: bool)
    ensures
        r == suffix_hit(hay@, list.deep_view()),
{
    let ghost dv = list.deep_view();
    let hc = str_to_chars(hay.as_str());
    let mut i: usize = 0;
    while i < list.len()
        invariant
            i <= list@.len(),
            dv == list.deep_view(),
            dv.len() == list@.len(),
            hc@ == hay@,
            forall|k: int| 0 <= k < i ==> !ends_with(hay@, #[trigger] dv[k]),
        decreases list@.len() - i,
    {
        proof {
            assert(dv[i as int] =~= list@[i as int]@);
        }
        let lc = str_to_chars(list[i].as_str());
        if chars_end_with(&hc, &lc) {
            proof {
                assert(ends_with(hay@, dv[i as int]));
            }
            return true;
        }
        i = i + 1;
    }
    proof {
        if suffix_hit(hay@, dv) {
            let k = choose|k: int| 0 <= k < dv.len() && ends_with(hay@, #[trigger] dv[k]);
        }
    }
    false
}

/// Whether some hint equals the given text.
fn any_eq(x: &String, list: &Vec<String>) -> (r: bool)
    ensures
        r == eq_hit(x@, list.deep_view()),
{
    let ghost dv = list.deep_view();
    let mut i: usize = 0;
    while i < list.len()
        invariant
            i <= list@.len(),
            dv == list.deep_view(),
            dv.len() == list@.len(),
            forall|k: int| 0 <= k < i ==> (#[trigger] dv[k]) != x@,
        decreases list@.len() - i,
    {
        proof {
            assert(dv[i as int] =~= list@[i as int]@);
        }
        if crate::text::str_eq(list[i].as_str(), x.as_str()) {
            proof {
                assert(dv[i as int] == x@);
            }
            return true;
        }
        i = i + 1;
    }
    proof {
        if eq_hit(x@, dv) {
            let k = choose|k: int| 0 <= k < dv.len() && (#[trigger] dv[k]) == x@;
        }
    }
    false
}

/// Whether some hint equals the given text up to ASCII case.
fn any_eq_fold(x: &String, list: &Vec<String>) -> (r: bool)
    ensures
        r == fold_hit(x@, list.deep_view()),
{
    let ghost dv = list.deep_view();
    let xc = str_to_chars(x.as_str());
    let xl = lower_chars(&xc);
    let mut i: usize = 0;
    while i < list.len()
        invariant
            i <= list@.len(),
            dv == list.deep_view(),
            dv.len() == list@.len(),
            xl@ == lower_seq(x@),
            forall|k: int| 0 <= k < i ==> lower_seq(#[trigger] dv[k]) != lower_seq(x@),
        decreases list@.len() - i,
    {
        proof {
            assert(dv[i as int] =~= list@[i as int]@);
        }
        let lc = str_to_chars(list[i].as_str());
        let ll = lower_chars(&lc);
        if chars_eq(&ll, &xl) {
            proof {
                assert(lower_seq(dv[i as int]) == lower_seq(x@));
            }
            return true;
        }
        i = i + 1;
    }
    proof {
        if fold_hit(x@, dv) {
            let k = choose|k: int|
                0 <= k < dv.len() && lower_seq(#[trigger] dv[k]) == lower_seq(x@);
        }
    }
    false
}

/// Computes the context bonuses of an item.
fn bonus_milli_exec(item: &MemoryItem, ctx: &RecallContext) -> (r: u64)
    ensures
        r as int == bonus_milli(item@, ctx@),
        r <= 1000,
{
    let b1: u64 = match &ctx.current_file {
        Some(f) => {
            proof {
                assert(ctx@.current_file == Some(f@));
            }
            if any_suffix(f, &item.relevance_hints.files) {
                400
            } else {
                0
            }
        },
        None => {
            proof {
                assert(ctx@.current_file is None);
            }
            0
        },
    };
    let b2: u64 = match &ctx.crate_name {
        Some(c) => {
            proof {
                assert(ctx@.crate_name == Some(c@));
            }
            if any_eq(c, &item.relevance_hints.crates) {
                300
            } else {
                0
            }
        },
        None => {
            proof {
                assert(ctx@.crate_name is None);
            }
            0
        },
    };
    let b3: u64 = match &ctx.language {
        Some(l) => {
            proof {
                assert(ctx@.language == Some(l@));
            }
            if any_eq_fold(l, &item.relevance_hints.languages) {
                200
            } else {
                0
            }
        },
        None => {
            proof {
                assert(ctx@.language is None);
            }
            0
        },
    };
    let b4: u64 = match &ctx.command {
        Some(cm) => {
            proof {
                assert(ctx@.command == Some(cm@));
            }
            if any_eq(cm, &item.relevance_hints.commands) {
                100
            } else {
                0
            }
        },
        None => {
            proof {
                assert(ctx@.command is None);
            }
            0
        },
    };
    proof {
        assert(b1 as int == (match ctx@.current_file {
            Some(f) => if suffix_hit(f, item@.relevance_hints.files) {
                400int
            } else {
                0int
            },
            None => 0int,
        }));
        assert(b2 as int == (match ctx@.crate_name {
            Some(c) => if eq_hit(c, item@.relevance_hints.crates) {
                300int
            } else {
                0int
            },
            None => 0int,
        }));
        assert(b3 as int == (match ctx@.language {
            Some(l) => if fold_hit(l, item@.relevance_hints.languages) {
                200int
            } else {
                0int
            },
            None => 0int,
        }));
        assert(b4 as int == (match ctx@.command {
            Some(cm) => if eq_hit(cm, item@.relevance_hints.commands) {
                100int
            } else {
                0int
            },
            None => 0int,
        }));
    }
    let total: u64 = b1 + b2 + b3 + b4;
    proof {
        assert(total as int == b1 as int + b2 as int + b3 as int + b4 as int);
        assert(total as int == bonus_milli(item@, ctx@));
    }
    total
}

/// Computes the temporal decay of an item in thousandths.
fn decay_milli_exec(item: &MemoryItem, now_ms: i64) -> (r: u64)
    ensures
        r as int == decay_milli(item@, now_ms as int),
        r <= 1000,
{
    match &item.counters.last_used_at {
        None => 1000,
        Some(ts) => {
            match parse_rfc3339_millis(ts.as_str()) {
                None => 1000,
                Some(last) => {
                    if last >= now_ms {
                        1000
                    } else {
                        let diff: i128 = (now_ms as i128) - (last as i128);
                        let d: i128 = diff / 86400000;
                        proof {
                            assert(d == ((now_ms as int) - (last as int)) / 86400000);
                            assert(0 <= d < 0x8000_0000_0000_0000);
                        }
                        if d >= 70 {
                            0
                        } else {
                            let dd: u64 = d as u64;
                            let k = dd / 7;
                            let rr = dd % 7;
                            let f: u64 = if rr == 0 { 1000 } else if rr == 1 { 906 } else if rr
                                == 2 { 820 } else if rr == 3 { 743 } else if rr == 4 { 673 } else if rr
                                == 5 { 610 } else { 552 };
                            proof {
                                assert(f as int == week_frac((d as int) % 7));
                            }
                            if k == 0 { f } else if k == 1 { f / 2 } else if k == 2 { f / 4 }
                            else if k == 3 { f / 8 } else if k == 4 { f / 16 } else if k == 5 {
                                f / 32
                            } else if k == 6 { f / 64 } else if k == 7 { f / 128 } else if k == 8 {
                                f / 256
                            } else { f / 512 }
                        }
                    }
                },
            }
        },
    }
}

/// Computes the full score of an item in score units.
fn score_milli_exec(item: &MemoryItem, q: &Vec<Vec<char>>, ctx: &RecallContext, now_ms: i64) -> (r:
    u64)
    ensures
        r as int == score_milli(item@, q.deep_view(), ctx@, now_ms as int),
{
    let cc = str_to_chars(item.content.as_str());
    let ctoks = tokenize(&cc);
    let base: u64 = if q.len() == 0 || ctoks.len() == 0 {
        0
    } else {
        let common = count_common_exec(q, &ctoks);
        let wide: u128 = (common as u128) * 1000 / (q.len() as u128);
        proof {
            assert(q.deep_view().len() == q@.len());
            assert((common as u128) * 1000 == (common as int) * 1000) by (nonlinear_arith);
            assert((common as int) * 1000 / (q@.len() as int) <= 1000) by (nonlinear_arith)
                requires
                    0 <= common <= q@.len(),
                    q@.len() >= 1,
            ;
            assert((common as int) * 1000 / (q@.len() as int) >= 0) by (nonlinear_arith)
                requires
                    0 <= common,
                    q@.len() >= 1,
            ;
        }
        wide as u64
    };
    let bonus = bonus_milli_exec(item, ctx);
    let decay = decay_milli_exec(item, now_ms);
    let freq: u64 = 10 + (item.counters.used_count as u64);
    let s1: u64 = base + bonus;
    proof {
        assert(s1 <= 2000);
        assert(freq <= 10 + 0xFFFF_FFFFu64);
        assert((s1 as int) * (freq as int) <= 2000 * (10 + 0xFFFF_FFFF)) by (nonlinear_arith)
            requires
                s1 <= 2000,
                freq <= 10 + 0xFFFF_FFFFu64,
        ;
    }
    let s2: u64 = s1 * freq;
    proof {
        assert((s2 as int) * (decay as int) <= 8589934680000 * 1000) by (nonlinear_arith)
            requires
                s2 <= 8589934680000u64,
                decay <= 1000,
        ;
    }
    let r = s2 * decay;
    r
}

/// Places an item behind every item that scores at or above it: stable
/// descending insertion by score.
pub open spec fn insert_ranked(
    x: ItemView,
    s: Seq<ItemView>,
    q: Seq<Seq<char>>,
    ctx: CtxView,
    now: int,
) -> Seq<ItemView>
    decreases s.len(),
{
    if s.len() == 0 {
        seq![x]
    } else if score_milli(x, q, ctx, now) <= score_milli(s[0], q, ctx, now) {
        seq![s[0]] + insert_ranked(x, s.drop_first(), q, ctx, now)
    } else {
        seq![x] + s
    }
}

/// Stable sort by score, highest first; ties keep the incoming order.
pub open spec fn rank_spec(s: Seq<ItemView>, q: Seq<Seq<char>>, ctx: CtxView, now: int) -> Seq<
    ItemView,
>
    decreases s.len(),
{
    if s.len() == 0 {
        Seq::empty()
    } else {
        insert_ranked(s.last(), rank_spec(s.drop_last(), q, ctx, now), q, ctx, now)
    }
}

/// The greedy budgeted selection: take items in ranked order while the item
/// budget lasts, passing over items that would burst the token budget; a
/// zero budget selects nothing.
pub open spec fn select_spec(ranked: Seq<ItemView>, cap: int, tcap: int, used: int) -> Seq<
    ItemView,
>
    decreases ranked.len(),
{
    if ranked.len() == 0 || cap <= 0 || tcap <= 0 {
        Seq::empty()
    } else {
        let t = wtok_count(ranked[0].content, false);
        if used + t <= tcap {
            seq![ranked[0]] + select_spec(ranked.drop_first(), cap - 1, tcap, used + t)
        } else {
            select_spec(ranked.drop_first(), cap, tcap, used)
        }
    }
}

/// An item after a recall selected it: its use count one higher until the
/// counter is full, its last use at the recall's clock.
pub open spec fn bump(v: ItemView, now: Seq<char>) -> ItemView {
    ItemView {
        counters: CountersView {
            seen_count: v.counters.seen_count,
            used_count: if v.counters.used_count == 0xFFFF_FFFFu32 {
                v.counters.used_count
            } else {
                (v.counters.used_count + 1) as u32
            },
            last_used_at: Some(now),
        },
        ..v
    }
}

/// The store after the selected items' counters were written back in order.
pub open spec fn apply_updates(s: Seq<ItemView>, sel: Seq<ItemView>, now: Seq<char>) -> Seq<
    ItemView,
>
    decreases sel.len(),
{
    if sel.len() == 0 {
        s
    } else {
        apply_updates(update_spec(s, bump(sel[0], now)), sel.drop_first(), now)
    }
}

/// Writing back one more item folds onto the end.
proof fn lemma_apply_updates_snoc(s: Seq<ItemView>, sel: Seq<ItemView>, x: ItemView, now: Seq<char>)
    ensures
        apply_updates(s, sel.push(x), now) == update_spec(apply_updates(s, sel, now), bump(x, now)),
    decreases sel.len(),
{
    if sel.len() == 0 {
        assert(sel.push(x)[0] == x);
        assert(sel.push(x).drop_first() =~= Seq::<ItemView>::empty());
        assert(apply_updates(update_spec(s, bump(x, now)), Seq::<ItemView>::empty(), now)
            == update_spec(s, bump(x, now)));
        assert(apply_updates(s, sel, now) == s);
    } else {
        assert(sel.push(x)[0] == sel[0]);
        assert(sel.push(x).drop_first() =~= sel.drop_first().push(x));
        lemma_apply_updates_snoc(update_spec(s, bump(sel[0], now)), sel.drop_first(), x, now);
    }
}

/// Replacing a record in place never changes which ids are present.
pub proof fn lemma_update_spec_ids(s: Seq<ItemView>, v: ItemView)
    ensures
        forall|id: Seq<char>| #[trigger] has_id(update_spec(s, v), id) <==> has_id(s, id),
{
    assert forall|id: Seq<char>| #[trigger]
        has_id(update_spec(s, v), id) <==> has_id(s, id) by {
        let u = update_spec(s, v);
        assert(u.len() == s.len());
        if has_id(u, id) {
            let k = choose|k: int| 0 <= k < u.len() && #[trigger] u[k].id == id;
            assert(s[k].id == id);
        }
        if has_id(s, id) {
            let k = choose|k: int| 0 <= k < s.len() && #[trigger] s[k].id == id;
            assert(u[k].id == id);
        }
    }
}

/// Every id the filter keeps was in the store.
pub proof fn lemma_filter_items_ids(
    s: Seq<ItemView>,
    scope: Option<crate::types::Scope>,
    status: Option<Status>,
    id: Seq<char>,
)
    requires
        has_id(filter_items(s, scope, status), id),
    ensures
        has_id(s, id),
    decreases s.len(),
{
    reveal(Seq::filter);
    if s.len() > 0 {
        let f = filter_items(s, scope, status);
        let fd = filter_items(s.drop_last(), scope, status);
        let k = choose|k: int| 0 <= k < f.len() && #[trigger] f[k].id == id;
        if crate::store::keep(s.last(), scope, status) {
            if k == f.len() - 1 {
                assert(s[s.len() - 1].id == id);
            } else {
                assert(fd[k].id == id);
                assert(has_id(fd, id));
                lemma_filter_items_ids(s.drop_last(), scope, status, id);
                let m = choose|m: int| 0 <= m < s.drop_last().len() && #[trigger] s.drop_last()[m].id == id;
                assert(s[m].id == id);
            }
        } else {
            assert(fd[k].id == id);
            assert(has_id(fd, id));
            lemma_filter_items_ids(s.drop_last(), scope, status, id);
            let m = choose|m: int| 0 <= m < s.drop_last().len() && #[trigger] s.drop_last()[m].id == id;
            assert(s[m].id == id);
        }
    }
}

/// Every id in a ranked insertion is the inserted id or was there before.
proof fn lemma_insert_ranked_ids(
    x: ItemView,
    s: Seq<ItemView>,
    q: Seq<Seq<char>>,
    ctx: CtxView,
    now: int,
    id: Seq<char>,
)
    requires
        has_id(insert_ranked(x, s, q, ctx, now), id),
    ensures
        id == x.id || has_id(s, id),
    decreases s.len(),
{
    let r = insert_ranked(x, s, q, ctx, now);
    if s.len() == 0 {
        let k = choose|k: int| 0 <= k < r.len() && #[trigger] r[k].id == id;
        assert(r[k] == x);
    } else if score_milli(x, q, ctx, now) <= score_milli(s[0], q, ctx, now) {
        let t = insert_ranked(x, s.drop_first(), q, ctx, now);
        let k = choose|k: int| 0 <= k < r.len() && #[trigger] r[k].id == id;
        if k == 0 {
            assert(s[0].id == id);
        } else {
            assert(t[k - 1].id == id);
            assert(has_id(t, id));
            lemma_insert_ranked_ids(x, s.drop_first(), q, ctx, now, id);
            if id != x.id {
                let m = choose|m: int|
                    0 <= m < s.drop_first().len() && #[trigger] s.drop_first()[m].id == id;
                assert(s[m + 1].id == id);
            }
        }
    } else {
        let k = choose|k: int| 0 <= k < r.len() && #[trigger] r[k].id == id;
        if k == 0 {
            assert(x.id == id);
        } else {
            assert(s[k - 1].id == id);
        }
    }
}

/// Every id in the ranking was in the input.
proof fn lemma_rank_ids(
    s: Seq<ItemView>,
    q: Seq<Seq<char>>,
    ctx: CtxView,
    now: int,
    id: Seq<char>,
)
    requires
        has_id(rank_spec(s, q, ctx, now), id),
    ensures
        has_id(s, id),
    decreases s.len(),
{
    if s.len() > 0 {
        lemma_insert_ranked_ids(s.last(), rank_spec(s.drop_last(), q, ctx, now), q, ctx, now, id);
        if id == s.last().id {
            assert(s[s.len() - 1].id == id);
        } else {
            lemma_rank_ids(s.drop_last(), q, ctx, now, id);
            let m = choose|m: int|
                0 <= m < s.drop_last().len() && #[trigger] s.drop_last()[m].id == id;
            assert(s[m].id == id);
        }
    }
}

/// Every selected item stands in the ranking.
proof fn lemma_select_sub(ranked: Seq<ItemView>, cap: int, tcap: int, used: int, j: int)
    requires
        0 <= j < select_spec(ranked, cap, tcap, used).len(),
    ensures
        has_id(ranked, select_spec(ranked, cap, tcap, used)[j].id),
    decreases ranked.len(),
{
    let sel = select_spec(ranked, cap, tcap, used);
    if ranked.len() == 0 || cap <= 0 || tcap <= 0 {
    } else {
        let t = wtok_count(ranked[0].content, false);
        if used + t <= tcap {
            if j == 0 {
                assert(ranked[0].id == sel[0].id);
            } else {
                lemma_select_sub(ranked.drop_first(), cap - 1, tcap, used + t, j - 1);
                let rest = select_spec(ranked.drop_first(), cap - 1, tcap, used + t);
                let m = choose|m: int|
                    0 <= m < ranked.drop_first().len() && #[trigger] ranked.drop_first()[m].id
                        == rest[j - 1].id;
                assert(ranked[m + 1].id == sel[j].id);
            }
        } else {
            lemma_select_sub(ranked.drop_first(), cap, tcap, used, j);
            let rest = select_spec(ranked.drop_first(), cap, tcap, used);
            let m = choose|m: int|
                0 <= m < ranked.drop_first().len() && #[trigger] ranked.drop_first()[m].id
                    == rest[j].id;
            assert(ranked[m + 1].id == sel[j].id);
        }
    }
}

/// Sorts items by score, highest first, keeping the incoming order of ties.
fn rank_exec(items: Vec<MemoryItem>, q: &Vec<Vec<char>>, ctx: &RecallContext, now_ms: i64) -> (r:
    Vec<MemoryItem>)
    ensures
        items_view(r@) == rank_spec(items_view(items@), q.deep_view(), ctx@, now_ms as int),
{
    let ghost iv = items_view(items@);
    let ghost qv = q.deep_view();
    let mut out: Vec<MemoryItem> = Vec::new();
    let mut i: usize = 0;
    proof {
        assert(iv.take(0) =~= Seq::<ItemView>::empty());
        assert(items_view(out@) =~= Seq::<ItemView>::empty());
    }
    while i < items.len()
        invariant
            i <= items@.len(),
            iv == items_view(items@),
            qv == q.deep_view(),
            iv.len() == items@.len(),
            items_view(out@) == rank_spec(iv.take(i as int), qv, ctx@, now_ms as int),
        decreases items@.len() - i,
    {
        let x = items[i].duplicate();
        let sx = score_milli_exec(&x, q, ctx, now_ms);
        let ghost s = items_view(out@);
        let mut j: usize = 0;
        proof {
            assert(s.skip(0) =~= s);
        }
        while j < out.len() && sx <= score_milli_exec(&out[j], q, ctx, now_ms)
            invariant
                j <= out@.len(),
                s == items_view(out@),
                s.len() == out@.len(),
                sx as int == score_milli(x@, qv, ctx@, now_ms as int),
                qv == q.deep_view(),
                insert_ranked(x@, s, qv, ctx@, now_ms as int) == s.take(j as int) + insert_ranked(
                    x@,
                    s.skip(j as int),
                    qv,
                    ctx@,
                    now_ms as int,
                ),
            decreases out@.len() - j,
        {
            proof {
                assert(s.skip(j as int)[0] == s[j as int]);
                assert(s.skip(j as int).drop_first() =~= s.skip((j + 1) as int));
                assert(s.take(j as int) + (seq![s[j as int]] + insert_ranked(
                    x@,
                    s.skip((j + 1) as int),
                    qv,
                    ctx@,
                    now_ms as int,
                )) =~= s.take((j + 1) as int) + insert_ranked(
                    x@,
                    s.skip((j + 1) as int),
                    qv,
                    ctx@,
                    now_ms as int,
                ));
            }
            j = j + 1;
        }
        proof {
            if j < out@.len() {
                assert(s.skip(j as int)[0] == s[j as int]);
                assert(insert_ranked(x@, s.skip(j as int), qv, ctx@, now_ms as int) == seq![x@]
                    + s.skip(j as int));
            } else {
                assert(s.skip(j as int).len() == 0);
                assert(insert_ranked(x@, s.skip(j as int), qv, ctx@, now_ms as int) == seq![x@]);
                assert(seq![x@] =~= seq![x@] + s.skip(j as int));
            }
        }
        out.insert(j, x);
        proof {
            assert(items_view(out@) =~= s.take(j as int) + (seq![x@] + s.skip(j as int)));
            assert(iv.take((i + 1) as int).last() == iv[i as int]);
            assert(iv.take((i + 1) as int).drop_last() =~= iv.take(i as int));
        }
        i = i + 1;
    }
    proof {
        assert(iv.take(iv.len() as int) =~= iv);
    }
    out
}

/// Runs a recall: ranks the active records against the query and context,
/// selects within the budgets, writes the selected records' counters back,
/// and returns the selected records as updated.  Fails exactly when the
/// context clock is not a canonical timestamp, leaving the store unchanged.
pub fn recall(store: &mut JsonlMemoryStore, prompt: &str, ctx: &RecallContext) -> (r: Result<
    Vec<MemoryItem>,
    StoreError,
>)
    ensures
        match r {
            Ok(out) => rfc3339_millis(ctx@.now_rfc3339) is Some && ({
                let now = rfc3339_millis(ctx@.now_rfc3339)->Some_0;
                let active = sort_desc(
                    filter_items(crate::store::lww(old(store)@), None, Some(Status::Active)),
                );
                let ranked = rank_spec(active, tokens_spec(prompt@), ctx@, now);
                let sel = select_spec(ranked, ctx@.item_cap, ctx@.token_cap, 0);
                &&& items_view(out@) == sel.map_values(|v: ItemView| bump(v, ctx@.now_rfc3339))
                &&& final(store)@ == apply_updates(old(store)@, sel, ctx@.now_rfc3339)
            }),
            Err(e) => e == StoreError::Parse && rfc3339_millis(ctx@.now_rfc3339) is None
                && final(store)@ == old(store)@,
        },
        final(store).path_spec() == old(store).path_spec(),
{
    let now_ms = match parse_rfc3339_millis(ctx.now_rfc3339.as_str()) {
        Some(v) => v,
        None => {
            return Err(StoreError::Parse);
        },
    };
    let ghost orig = store@;
    let pc = str_to_chars(prompt);
    let q = tokenize(&pc);
    let ghost qv = q.deep_view();
    let active = store.list(None, Some(Status::Active));
    let ghost activev = items_view(active@);
    let ranked = rank_exec(active, &q, ctx, now_ms);
    let ghost rankedv = items_view(ranked@);
    proof {
        assert forall|id: Seq<char>| #[trigger] has_id(rankedv, id) implies has_id(orig, id) by {
            lemma_rank_ids(activev, qv, ctx@, now_ms as int, id);
            crate::store::lemma_sort_desc_ids(
                filter_items(crate::store::lww(orig), None, Some(Status::Active)),
            );
            lemma_filter_items_ids(crate::store::lww(orig), None, Some(Status::Active), id);
            crate::store::lemma_lww_has_id(orig);
        }
    }
    let ghost selv = select_spec(rankedv, ctx@.item_cap, ctx@.token_cap, 0);
    let mut chosen: Vec<MemoryItem> = Vec::new();
    let mut used: usize = 0;
    let mut k: usize = 0;
    proof {
        assert(rankedv.skip(0) =~= rankedv);
        assert(items_view(chosen@) + select_spec(rankedv, ctx@.item_cap, ctx@.token_cap, 0)
            =~= select_spec(rankedv, ctx@.item_cap, ctx@.token_cap, 0));
    }
    while k < ranked.len() && chosen.len() < ctx.item_cap && ctx.token_cap > 0
        invariant
            k <= ranked@.len(),
            rankedv == items_view(ranked@),
            rankedv.len() == ranked@.len(),
            chosen@.len() <= ctx@.item_cap,
            used <= ctx@.token_cap,
            selv == items_view(chosen@) + select_spec(
                rankedv.skip(k as int),
                ctx@.item_cap - chosen@.len(),
                ctx@.token_cap,
                used as int,
            ),
        decreases ranked@.len() - k,
    {
        proof {
            assert(rankedv.skip(k as int)[0] == rankedv[k as int]);
            assert(rankedv.skip(k as int).drop_first() =~= rankedv.skip((k + 1) as int));
        }
        let cc = str_to_chars(ranked[k].content.as_str());
        let t = wtok_count_exec(&cc);
        if t <= ctx.token_cap - used {
            let ghost prev = items_view(chosen@);
            chosen.push(ranked[k].duplicate());
            used = used + t;
            proof {
                assert(items_view(chosen@) =~= prev.push(rankedv[k as int]));
                assert(prev + (seq![rankedv[k as int]] + select_spec(
                    rankedv.skip((k + 1) as int),
                    ctx@.item_cap - chosen@.len(),
                    ctx@.token_cap,
                    used as int,
                )) =~= items_view(chosen@) + select_spec(
                    rankedv.skip((k + 1) as int),
                    ctx@.item_cap - chosen@.len(),
                    ctx@.token_cap,
                    used as int,
                ));
            }
        }
        k = k + 1;
    }
    proof {
        if k >= ranked@.len() {
            assert(rankedv.skip(k as int).len() == 0);
        }
        assert(select_spec(
            rankedv.skip(k as int),
            ctx@.item_cap - chosen@.len(),
            ctx@.token_cap,
            used as int,
        ) =~= Seq::<ItemView>::empty());
        assert(selv =~= items_view(chosen@));
        assert forall|m: int| 0 <= m < selv.len() implies has_id(orig, (#[trigger] selv[m]).id) by {
            lemma_select_sub(rankedv, ctx@.item_cap, ctx@.token_cap, 0, m);
        }
    }
    let mut out: Vec<MemoryItem> = Vec::new();
    let mut j: usize = 0;
    proof {
        assert(selv.take(0) =~= Seq::<ItemView>::empty());
        assert(items_view(out@) =~= selv.take(0).map_values(
            |v: ItemView| bump(v, ctx@.now_rfc3339),
        ));
    }
    while j < chosen.len()
        invariant
            j <= chosen@.len(),
            selv == items_view(chosen@),
            selv.len() == chosen@.len(),
            store@ == apply_updates(orig, selv.take(j as int), ctx@.now_rfc3339),
            items_view(out@) == selv.take(j as int).map_values(
                |v: ItemView| bump(v, ctx@.now_rfc3339),
            ),
            forall|m: int| 0 <= m < selv.len() ==> has_id(orig, (#[trigger] selv[m]).id),
            forall|id: Seq<char>| #[trigger] has_id(store@, id) <==> has_id(orig, id),
            store.path_spec() == old(store).path_spec(),
        decreases chosen@.len() - j,
    {
        let mut it = chosen[j].duplicate();
        it.counters.used_count = if it.counters.used_count == 0xFFFF_FFFFu32 {
            it.counters.used_count
        } else {
            it.counters.used_count + 1
        };
        it.counters.last_used_at = Some(ctx.now_rfc3339.clone());
        proof {
            assert(it@ =~= bump(selv[j as int], ctx@.now_rfc3339));
        }
        let ghost before = store@;
        match store.update(&it) {
            Ok(()) => {},
            Err(_) => {
                proof {
                    assert(has_id(before, it@.id));
                    assert(false);
                }
                return Err(StoreError::Parse);
            },
        }
        let ghost prev_out = items_view(out@);
        out.push(it);
        proof {
            lemma_update_spec_ids(before, bump(selv[j as int], ctx@.now_rfc3339));
            lemma_apply_updates_snoc(
                orig,
                selv.take(j as int),
                selv[j as int],
                ctx@.now_rfc3339,
            );
            assert(selv.take(j as int).push(selv[j as int]) =~= selv.take((j + 1) as int));
            assert(items_view(out@) =~= prev_out.push(bump(selv[j as int], ctx@.now_rfc3339)));
            assert(selv.take((j + 1) as int).map_values(|v: ItemView| bump(v, ctx@.now_rfc3339))
                =~= items_view(out@));
        }
        j = j + 1;
    }
    proof {
        assert(selv.take(selv.len() as int) =~= selv);
    }
    Ok(out)
}

/// Recall is a function of the store, the query and the context: the same
/// frozen store, query and context select the same records.
pub proof fn lemma_recall_deterministic(
    s1: Seq<ItemView>,
    s2: Seq<ItemView>,
    prompt: Seq<char>,
    ctx: CtxView,
    now: int,
)
    requires
        s1 == s2,
    ensures
        select_spec(
            rank_spec(
                sort_desc(filter_items(crate::store::lww(s1), None, Some(Status::Active))),
                tokens_spec(prompt),
                ctx,
                now,
            ),
            ctx.item_cap,
            ctx.token_cap,
            0,
        ) == select_spec(
            rank_spec(
                sort_desc(filter_items(crate::store::lww(s2), None, Some(Status::Active))),
                tokens_spec(prompt),
                ctx,
                now,
            ),
            ctx.item_cap,
            ctx.token_cap,
            0,
        ),
{
}

/// Looking up an id another record carries sees through a replacement.
proof fn lemma_get_update_other(s: Seq<ItemView>, v: ItemView, id: Seq<char>)
    requires
        id != v.id,
    ensures
        crate::store::get_spec(update_spec(s, v), id) == crate::store::get_spec(s, id),
    decreases s.len(),
{
    if s.len() > 0 {
        let u = update_spec(s, v);
        assert(u[0] == (if s[0].id == v.id {
            v
        } else {
            s[0]
        }));
        assert(u.drop_first() =~= update_spec(s.drop_first(), v));
        lemma_update_spec_ids(s.drop_first(), v);
        assert(u[0].id == id <==> s[0].id == id);
        lemma_get_update_other(s.drop_first(), v, id);
    }
}

/// Looking up a replaced id finds the replacement.
proof fn lemma_get_update_hit(s: Seq<ItemView>, v: ItemView)
    requires
        has_id(s, v.id),
    ensures
        crate::store::get_spec(update_spec(s, v), v.id) == Some(v),
    decreases s.len(),
{
    let u = update_spec(s, v);
    assert(u.len() == s.len());
    if s.len() > 0 {
        assert(u[0] == (if s[0].id == v.id {
            v
        } else {
            s[0]
        }));
        assert(u.drop_first() =~= update_spec(s.drop_first(), v));
        lemma_update_spec_ids(s.drop_first(), v);
        if s[0].id == v.id {
            if has_id(s.drop_first(), v.id) {
                lemma_get_update_hit(s.drop_first(), v);
                assert(has_id(u.drop_first(), v.id));
            } else {
                assert(!has_id(u.drop_first(), v.id));
                assert(u[0] == v);
            }
        } else {
            let k = choose|k: int| 0 <= k < s.len() && #[trigger] s[k].id == v.id;
            assert(s.drop_first()[k - 1].id == v.id);
            assert(has_id(s.drop_first(), v.id));
            lemma_get_update_hit(s.drop_first(), v);
        }
    }
}

/// After a recall, every selected id's record carries a use count one
/// higher and the recall's clock as its last use.
pub proof fn lemma_recall_counters(s: Seq<ItemView>, sel: Seq<ItemView>, now: Seq<char>, j: int)
    requires
        0 <= j < sel.len(),
        crate::store::unique_ids(sel),
        forall|m: int| 0 <= m < sel.len() ==> has_id(s, (#[trigger] sel[m]).id),
    ensures
        crate::store::get_spec(apply_updates(s, sel, now), sel[j].id) == Some(bump(sel[j], now)),
    decreases sel.len(),
{
    let s2 = update_spec(s, bump(sel[0], now));
    lemma_update_spec_ids(s, bump(sel[0], now));
    if j == 0 {
        lemma_get_update_hit(s, bump(sel[0], now));
        lemma_get_through_updates(s2, sel.drop_first(), now, sel[0].id, bump(sel[0], now));
    } else {
        assert(crate::store::unique_ids(sel.drop_first()));
        assert forall|m: int| 0 <= m < sel.drop_first().len() implies has_id(
            s2,
            (#[trigger] sel.drop_first()[m]).id,
        ) by {
            assert(sel.drop_first()[m] == sel[m + 1]);
        }
        lemma_recall_counters(s2, sel.drop_first(), now, j - 1);
        assert(sel.drop_first()[j - 1] == sel[j]);
    }
}

/// A record whose id none of the remaining writes carry stays as it is.
proof fn lemma_get_through_updates(
    s: Seq<ItemView>,
    sel: Seq<ItemView>,
    now: Seq<char>,
    id: Seq<char>,
    v: ItemView,
)
    requires
        crate::store::get_spec(s, id) == Some(v),
        forall|m: int| 0 <= m < sel.len() ==> (#[trigger] sel[m]).id != id,
    ensures
        crate::store::get_spec(apply_updates(s, sel, now), id) == Some(v),
    decreases sel.len(),
{
    if sel.len() > 0 {
        lemma_get_update_other(s, bump(sel[0], now), id);
        assert forall|m: int| 0 <= m < sel.drop_first().len() implies (
        #[trigger] sel.drop_first()[m]).id != id by {
            assert(sel.drop_first()[m] == sel[m + 1]);
        }
        lemma_get_through_updates(
            update_spec(s, bump(sel[0], now)),
            sel.drop_first(),
            now,
            id,
            v,
        );
    }
}

} // verus!
