//! The redactor: scans candidate text for likely secrets, masks their byte
//! ranges with a sentinel, and reports what was found.
//!
//! Four passes record spans: assignment-style secrets, authorized keys,
//! armored private keys, and high-entropy token runs.  Entropy is Shannon
//! entropy over the run's characters, measured with a sixteen-bit
//! fixed-point logarithm.

use vstd::prelude::*;

use crate::store::is_ws;
use crate::store::is_ws_exec;
use crate::text::chars_to_string;
use crate::text::lower_char_spec;
use crate::text::str_to_chars;

verus! {

/// The sentinel that replaces a masked span.
pub open spec fn sentinel() -> Seq<char> {
    "[REDACTED]"@
}

/// What the redactor found and produced.
pub struct Redaction {
    pub masked: String,
    pub issues: Vec<String>,
    pub blocked: bool,
}

/// The spans recorded so far and the issue raised for each.
#[verifier::ext_equal]
pub ghost struct ScanState {
    pub spans: Seq<(int, int)>,
    pub issues: Seq<Seq<char>>,
}

/// Records a span and its issue, unless the span already lies inside a
/// recorded one.
pub open spec fn add_span(st: ScanState, lo: int, hi: int, label: Seq<char>) -> ScanState {
    if exists|k: int|
        0 <= k < st.spans.len() && (#[trigger] st.spans[k]).0 <= lo && hi <= st.spans[k].1 {
        st
    } else {
        ScanState { spans: st.spans.push((lo, hi)), issues: st.issues.push(label) }
    }
}

/// A word character of a secret value: a letter, a digit, an underscore or
/// a hyphen.
pub open spec fn is_word(c: char) -> bool {
    ('a' <= c && c <= 'z') || ('A' <= c && c <= 'Z') || ('0' <= c && c <= '9') || c == '_' || c
        == '-'
}

/// Reads whether a character is a word character.
pub fn is_word_exec(c: char) -> (r: bool)
    ensures
        r == is_word(c),
{
    ('a' <= c && c <= 'z') || ('A' <= c && c <= 'Z') || ('0' <= c && c <= '9') || c == '_' || c
        == '-'
}

/// A character of a base64-like run.
pub open spec fn is_b64(c: char) -> bool {
    ('a' <= c && c <= 'z') || ('A' <= c && c <= 'Z') || ('0' <= c && c <= '9') || c == '+' || c
        == '/' || c == '='
}

/// Reads whether a character belongs to a base64-like run.
pub fn is_b64_exec(c: char) -> (r: bool)
    ensures
        r == is_b64(c),
{
    ('a' <= c && c <= 'z') || ('A' <= c && c <= 'Z') || ('0' <= c && c <= '9') || c == '+' || c
        == '/' || c == '='
}

/// A character of a high-entropy token run.
pub open spec fn is_tok(c: char) -> bool {
    is_b64(c) || c == '_' || c == '-'
}

/// Reads whether a character belongs to a token run.
pub fn is_tok_exec(c: char) -> (r: bool)
    ensures
        r == is_tok(c),
{
    is_b64_exec(c) || c == '_' || c == '-'
}

/// A separator between a secret's name and its value.
pub open spec fn is_sep(c: char) -> bool {
    is_ws(c) || c == ':' || c == '='
}

/// Reads whether a character separates a name from a value.
pub fn is_sep_exec(c: char) -> (r: bool)
    ensures
        r == is_sep(c),
{
    is_ws_exec(c) || c == ':' || c == '='
}

/// The length of the run of characters satisfying the class at the cursor.
pub open spec fn run_len(s: Seq<char>, i: int, cls: spec_fn(char) -> bool) -> int
    decreases s.len() - i,
{
    if i < 0 || i >= s.len() || !cls(s[i]) {
        0
    } else {
        1 + run_len(s, i + 1, cls)
    }
}

/// A class run stays within the text.
pub proof fn lemma_run_len_bounds(s: Seq<char>, i: int, cls: spec_fn(char) -> bool)
    requires
        0 <= i <= s.len(),
    ensures
        0 <= run_len(s, i, cls) <= s.len() - i,
    decreases s.len() - i,
{
    if i < s.len() && cls(s[i]) {
        lemma_run_len_bounds(s, i + 1, cls);
    }
}

/// Measures a class run at the cursor.
fn run_len_word_exec(s: &Vec<char>, i: usize) -> (r: usize)
    requires
        i <= s@.len(),
    ensures
        r == run_len(s@, i as int, |c: char| is_word(c)),
        i + r <= s@.len(),
{
    let n = s.len();
    let mut j = i;
    while j < n && is_word_exec(s[j])
        invariant
            i <= j <= n,
            n == s@.len(),
            run_len(s@, i as int, |c: char| is_word(c)) == (j - i) + run_len(
                s@,
                j as int,
                |c: char| is_word(c),
            ),
        decreases n - j,
    {
        j = j + 1;
    }
    proof {
        assert(run_len(s@, j as int, |c: char| is_word(c)) == 0);
    }
    j - i
}

/// Measures a base64 run at the cursor.
fn run_len_b64_exec(s: &Vec<char>, i: usize) -> (r: usize)
    requires
        i <= s@.len(),
    ensures
        r == run_len(s@, i as int, |c: char| is_b64(c)),
        i + r <= s@.len(),
{
    let n = s.len();
    let mut j = i;
    while j < n && is_b64_exec(s[j])
        invariant
            i <= j <= n,
            n == s@.len(),
            run_len(s@, i as int, |c: char| is_b64(c)) == (j - i) + run_len(
                s@,
                j as int,
                |c: char| is_b64(c),
            ),
        decreases n - j,
    {
        j = j + 1;
    }
    proof {
        assert(run_len(s@, j as int, |c: char| is_b64(c)) == 0);
    }
    j - i
}

/// Measures a token run at the cursor.
fn run_len_tok_exec(s: &Vec<char>, i: usize) -> (r: usize)
    requires
        i <= s@.len(),
    ensures
        r == run_len(s@, i as int, |c: char| is_tok(c)),
        i + r <= s@.len(),
{
    let n = s.len();
    let mut j = i;
    while j < n && is_tok_exec(s[j])
        invariant
            i <= j <= n,
            n == s@.len(),
            run_len(s@, i as int, |c: char| is_tok(c)) == (j - i) + run_len(
                s@,
                j as int,
                |c: char| is_tok(c),
            ),
        decreases n - j,
    {
        j = j + 1;
    }
    proof {
        assert(run_len(s@, j as int, |c: char| is_tok(c)) == 0);
    }
    j - i
}

/// Measures a separator run at the cursor.
fn run_len_sep_exec(s: &Vec<char>, i: usize) -> (r: usize)
    requires
        i <= s@.len(),
    ensures
        r == run_len(s@, i as int, |c: char| is_sep(c)),
        i + r <= s@.len(),
{
    let n = s.len();
    let mut j = i;
    while j < n && is_sep_exec(s[j])
        invariant
            i <= j <= n,
            n == s@.len(),
            run_len(s@, i as int, |c: char| is_sep(c)) == (j - i) + run_len(
                s@,
                j as int,
                |c: char| is_sep(c),
            ),
        decreases n - j,
    {
        j = j + 1;
    }
    proof {
        assert(run_len(s@, j as int, |c: char| is_sep(c)) == 0);
    }
    j - i
}

/// Whether the word at the cursor matches, folding ASCII case.
pub open spec fn match_ci(s: Seq<char>, i: int, w: Seq<char>) -> bool {
    0 <= i && i + w.len() <= s.len() && forall|k: int|
        0 <= k < w.len() ==> lower_char_spec(#[trigger] s[i + k]) == w[k]
}

/// Whether the text at the cursor matches exactly.
pub open spec fn match_at(s: Seq<char>, i: int, w: Seq<char>) -> bool {
    0 <= i && i + w.len() <= s.len() && forall|k: int| 0 <= k < w.len() ==> (#[trigger] s[i + k])
        == w[k]
}

/// Checks a case-folded match at the cursor.
fn match_ci_exec(s: &Vec<char>, i: usize, w: &str) -> (r: bool)
    requires
        i <= s@.len(),
    ensures
        r == match_ci(s@, i as int, w@),
{
    let n = w.unicode_len();
    let sn = s.len();
    if n > sn - i {
        return false;
    }
    let mut k: usize = 0;
    while k < n
        invariant
            k <= n,
            n == w@.len(),
            sn == s@.len(),
            i + n <= sn,
            forall|m: int| 0 <= m < k ==> lower_char_spec(#[trigger] s@[i + m]) == w@[m],
        decreases n - k,
    {
        if crate::text::lower_char(s[i + k]) != w.get_char(k) {
            return false;
        }
        k = k + 1;
    }
    true
}

/// Checks an exact match at the cursor.
fn match_at_exec(s: &Vec<char>, i: usize, w: &str) -> (r: bool)
    requires
        i <= s@.len(),
    ensures
        r == match_at(s@, i as int, w@),
{
    let n = w.unicode_len();
    let sn = s.len();
    if n > sn - i {
        return false;
    }
    let mut k: usize = 0;
    while k < n
        invariant
            k <= n,
            n == w@.len(),
            sn == s@.len(),
            i + n <= sn,
            forall|m: int| 0 <= m < k ==> (#[trigger] s@[i + m]) == w@[m],
        decreases n - k,
    {
        if s[i + k] != w.get_char(k) {
            return false;
        }
        k = k + 1;
    }
    true
}

/// Where a secret-name keyword at the cursor ends, or the cursor itself
/// when none matches: one of the api-key spellings, token, secret, or
/// password, in any case.
pub open spec fn kw_end(s: Seq<char>, i: int) -> int {
    if match_ci(s, i, "api_key"@) || match_ci(s, i, "api-key"@) {
        i + 7
    } else if match_ci(s, i, "apikey"@) {
        i + 6
    } else if match_ci(s, i, "token"@) {
        i + 5
    } else if match_ci(s, i, "secret"@) {
        i + 6
    } else if match_ci(s, i, "password"@) {
        i + 8
    } else {
        i
    }
}

/// Finds the end of a secret-name keyword at the cursor.
fn kw_end_exec(s: &Vec<char>, i: usize) -> (r: usize)
    requires
        i <= s@.len(),
    ensures
        r == kw_end(s@, i as int),
        i <= r <= s@.len(),
{
    let sn = s.len();
    proof {
        reveal_strlit("api_key");
        reveal_strlit("api-key");
        reveal_strlit("apikey");
        reveal_strlit("token");
        reveal_strlit("secret");
        reveal_strlit("password");
    }
    if match_ci_exec(s, i, "api_key") || match_ci_exec(s, i, "api-key") {
        i + 7
    } else if match_ci_exec(s, i, "apikey") {
        i + 6
    } else if match_ci_exec(s, i, "token") {
        i + 5
    } else if match_ci_exec(s, i, "secret") {
        i + 6
    } else if match_ci_exec(s, i, "password") {
        i + 8
    } else {
        i
    }
}

/// The assignment-style pass from the cursor on: a secret name, one or more
/// separators, and a value run of at least sixteen word characters; only
/// the value is recorded.
pub open spec fn pass1(s: Seq<char>, i: int, st: ScanState) -> ScanState
    decreases s.len() - i,
{
    if i < 0 || i >= s.len() {
        st
    } else {
        let k = kw_end(s, i);
        if i < k <= s.len() {
            let p = k + run_len(s, k, |c: char| is_sep(c));
            if k < p <= s.len() {
                let e = p + run_len(s, p, |c: char| is_word(c));
                if e - p >= 16 && e <= s.len() {
                    pass1(s, e, add_span(st, p, e, "possible API key"@))
                } else {
                    pass1(s, i + 1, st)
                }
            } else {
                pass1(s, i + 1, st)
            }
        } else {
            pass1(s, i + 1, st)
        }
    }
}

/// The authorized-key pass: an ssh key type and a base64 run of at least
/// twenty characters; the whole match is recorded.
pub open spec fn pass2(s: Seq<char>, i: int, st: ScanState) -> ScanState
    decreases s.len() - i,
{
    if i < 0 || i >= s.len() {
        st
    } else {
        let h = if match_at(s, i, "ssh-rsa "@) {
            i + 8
        } else if match_at(s, i, "ssh-ed25519 "@) {
            i + 12
        } else {
            i
        };
        if i < h <= s.len() {
            let e = h + run_len(s, h, |c: char| is_b64(c));
            if e - h >= 20 && e <= s.len() {
                pass2(s, e, add_span(st, i, e, "possible SSH key"@))
            } else {
                pass2(s, i + 1, st)
            }
        } else {
            pass2(s, i + 1, st)
        }
    }
}


/// An uppercase letter or a space, as in an armored key label.
pub open spec fn is_az(c: char) -> bool {
    ('A' <= c && c <= 'Z') || c == ' '
}

/// Reads whether a character fits an armored key label.
fn is_az_exec(c: char) -> (r: bool)
    ensures
        r == is_az(c),
{
    ('A' <= c && c <= 'Z') || c == ' '
}

/// Measures a label run at the cursor.
fn run_len_az_exec(s: &Vec<char>, i: usize) -> (r: usize)
    requires
        i <= s@.len(),
    ensures
        r == run_len(s@, i as int, |c: char| is_az(c)),
        i + r <= s@.len(),
{
    let n = s.len();
    let mut j = i;
    while j < n && is_az_exec(s[j])
        invariant
            i <= j <= n,
            n == s@.len(),
            run_len(s@, i as int, |c: char| is_az(c)) == (j - i) + run_len(
                s@,
                j as int,
                |c: char| is_az(c),
            ),
        decreases n - j,
    {
        j = j + 1;
    }
    proof {
        assert(run_len(s@, j as int, |c: char| is_az(c)) == 0);
    }
    j - i
}

/// Where an armored-key opening at the cursor ends, or the cursor itself:
/// the begin guard, a label ending in the private-key words, and dashes.
pub open spec fn pem_begin_end(s: Seq<char>, i: int) -> int {
    if match_at(s, i, "-----BEGIN "@) {
        let b = i + 11;
        let m = run_len(s, b, |c: char| is_az(c));
        if m >= 11 && match_at(s, b + m - 11, "PRIVATE KEY"@) && match_at(s, b + m, "-----"@) {
            b + m + 5
        } else {
            i
        }
    } else {
        i
    }
}

/// Finds the end of an armored-key opening at the cursor.
fn pem_begin_end_exec(s: &Vec<char>, i: usize) -> (r: usize)
    requires
        i <= s@.len(),
    ensures
        r == pem_begin_end(s@, i as int),
        i <= r <= s@.len(),
{
    proof {
        reveal_strlit("-----BEGIN ");
        reveal_strlit("PRIVATE KEY");
        reveal_strlit("-----");
    }
    let sn = s.len();
    if match_at_exec(s, i, "-----BEGIN ") {
        proof {
            assert(i + 11 <= sn);
        }
        let b = i + 11;
        let m = run_len_az_exec(s, b);
        proof {
            assert(b + m <= sn);
        }
        if m >= 11 && match_at_exec(s, b + m - 11, "PRIVATE KEY") && match_at_exec(s, b + m, "-----")
             {
            b + m + 5
        } else {
            i
        }
    } else {
        i
    }
}

/// Where an armored-key closing at the cursor ends, or the cursor itself.
pub open spec fn pem_end_end(s: Seq<char>, i: int) -> int {
    if match_at(s, i, "-----END "@) {
        let b = i + 9;
        let m = run_len(s, b, |c: char| is_az(c));
        if m >= 11 && match_at(s, b + m - 11, "PRIVATE KEY"@) && match_at(s, b + m, "-----"@) {
            b + m + 5
        } else {
            i
        }
    } else {
        i
    }
}

/// Finds the end of an armored-key closing at the cursor.
fn pem_end_end_exec(s: &Vec<char>, i: usize) -> (r: usize)
    requires
        i <= s@.len(),
    ensures
        r == pem_end_end(s@, i as int),
        i <= r <= s@.len(),
{
    proof {
        reveal_strlit("-----END ");
        reveal_strlit("PRIVATE KEY");
        reveal_strlit("-----");
    }
    let sn = s.len();
    if match_at_exec(s, i, "-----END ") {
        proof {
            assert(i + 9 <= sn);
        }
        let b = i + 9;
        let m = run_len_az_exec(s, b);
        proof {
            assert(b + m <= sn);
        }
        if m >= 11 && match_at_exec(s, b + m - 11, "PRIVATE KEY") && match_at_exec(s, b + m, "-----")
             {
            b + m + 5
        } else {
            i
        }
    } else {
        i
    }
}

/// The end of the earliest armored-key closing at or after the cursor, or
/// zero when none follows.
pub open spec fn find_pem_end(s: Seq<char>, q: int) -> int
    decreases s.len() - q,
{
    if q < 0 || q >= s.len() {
        0
    } else {
        let e = pem_end_end(s, q);
        if q < e <= s.len() {
            e
        } else {
            find_pem_end(s, q + 1)
        }
    }
}

/// Searches for the earliest armored-key closing at or after the cursor.
fn find_pem_end_exec(s: &Vec<char>, q: usize) -> (r: usize)
    requires
        q <= s@.len(),
    ensures
        r == find_pem_end(s@, q as int),
        r <= s@.len(),
{
    let n = s.len();
    let mut j = q;
    while j < n
        invariant
            q <= j <= n,
            n == s@.len(),
            find_pem_end(s@, q as int) == find_pem_end(s@, j as int),
        decreases n - j,
    {
        let e = pem_end_end_exec(s, j);
        if e > j {
            return e;
        }
        j = j + 1;
    }
    0
}

/// The armored private key pass: from a begin guard, the shortest stretch
/// to an end guard; the whole block is recorded.
pub open spec fn pass3(s: Seq<char>, i: int, st: ScanState) -> ScanState
    decreases s.len() - i,
{
    if i < 0 || i >= s.len() {
        st
    } else {
        let h = pem_begin_end(s, i);
        if i < h && h < s.len() {
            let e = find_pem_end(s, h + 1);
            if h < e <= s.len() {
                pass3(s, e, add_span(st, i, e, "possible private key"@))
            } else {
                pass3(s, i + 1, st)
            }
        } else {
            pass3(s, i + 1, st)
        }
    }
}

/// Two raised to the `k`.
pub open spec fn pow2(k: int) -> int
    decreases k,
{
    if k <= 0 {
        1
    } else {
        2 * pow2(k - 1)
    }
}

/// The position of the highest binary digit.
pub open spec fn msb(x: int) -> int
    decreases x,
{
    if x < 2 {
        0
    } else {
        1 + msb(x / 2)
    }
}

/// The highest binary digit brackets the value.
pub proof fn lemma_msb_bounds(x: int)
    requires
        x >= 1,
    ensures
        0 <= msb(x),
        pow2(msb(x)) <= x,
        x < pow2(msb(x) + 1),
    decreases x,
{
    if x < 2 {
        assert(pow2(0int) == 1);
        assert(pow2(1int) == 2);
    } else {
        lemma_msb_bounds(x / 2);
        assert(msb(x) == 1 + msb(x / 2));
        assert(pow2(msb(x)) == 2 * pow2(msb(x) - 1));
        assert(pow2(msb(x) + 1) == 2 * pow2(msb(x)));
    }
}

/// A value below a power of two has its highest digit below that power.
proof fn lemma_msb_lt(x: int, b: int)
    requires
        1 <= x,
        1 <= b,
        x < pow2(b),
    ensures
        msb(x) <= b - 1,
    decreases x,
{
    if x < 2 {
    } else {
        assert(pow2(b) == 2 * pow2(b - 1));
        assert(x / 2 < pow2(b - 1));
        if b == 1 {
            assert(pow2(0int) == 1);
        } else {
            lemma_msb_lt(x / 2, b - 1);
        }
    }
}

/// The values of the small powers of two.
proof fn lemma_pow2_values()
    ensures
        pow2(16) == 65536,
        pow2(63) == 0x8000_0000_0000_0000,
        pow2(64) == 0x1_0000_0000_0000_0000,
{
    assert(pow2(0int) == 1);
    assert(pow2(1int) == 2);
    assert(pow2(2int) == 4);
    assert(pow2(3int) == 8);
    assert(pow2(4int) == 16);
    assert(pow2(5int) == 32);
    assert(pow2(6int) == 64);
    assert(pow2(7int) == 128);
    assert(pow2(8int) == 256);
    assert(pow2(9int) == 512);
    assert(pow2(10int) == 1024);
    assert(pow2(11int) == 2048);
    assert(pow2(12int) == 4096);
    assert(pow2(13int) == 8192);
    assert(pow2(14int) == 16384);
    assert(pow2(15int) == 32768);
    assert(pow2(16int) == 65536);
    assert(pow2(17int) == 131072);
    assert(pow2(18int) == 262144);
    assert(pow2(19int) == 524288);
    assert(pow2(20int) == 1048576);
    assert(pow2(21int) == 2097152);
    assert(pow2(22int) == 4194304);
    assert(pow2(23int) == 8388608);
    assert(pow2(24int) == 16777216);
    assert(pow2(25int) == 33554432);
    assert(pow2(26int) == 67108864);
    assert(pow2(27int) == 134217728);
    assert(pow2(28int) == 268435456);
    assert(pow2(29int) == 536870912);
    assert(pow2(30int) == 1073741824);
    assert(pow2(31int) == 2147483648);
    assert(pow2(32int) == 4294967296);
    assert(pow2(33int) == 8589934592);
    assert(pow2(34int) == 17179869184);
    assert(pow2(35int) == 34359738368);
    assert(pow2(36int) == 68719476736);
    assert(pow2(37int) == 137438953472);
    assert(pow2(38int) == 274877906944);
    assert(pow2(39int) == 549755813888);
    assert(pow2(40int) == 1099511627776);
    assert(pow2(41int) == 2199023255552);
    assert(pow2(42int) == 4398046511104);
    assert(pow2(43int) == 8796093022208);
    assert(pow2(44int) == 17592186044416);
    assert(pow2(45int) == 35184372088832);
    assert(pow2(46int) == 70368744177664);
    assert(pow2(47int) == 140737488355328);
    assert(pow2(48int) == 281474976710656);
    assert(pow2(49int) == 562949953421312);
    assert(pow2(50int) == 1125899906842624);
    assert(pow2(51int) == 2251799813685248);
    assert(pow2(52int) == 4503599627370496);
    assert(pow2(53int) == 9007199254740992);
    assert(pow2(54int) == 18014398509481984);
    assert(pow2(55int) == 36028797018963968);
    assert(pow2(56int) == 72057594037927936);
    assert(pow2(57int) == 144115188075855872);
    assert(pow2(58int) == 288230376151711744);
    assert(pow2(59int) == 576460752303423488);
    assert(pow2(60int) == 1152921504606846976);
    assert(pow2(61int) == 2305843009213693952);
    assert(pow2(62int) == 4611686018427387904);
    assert(pow2(63int) == 9223372036854775808);
    assert(pow2(64int) == 18446744073709551616);
}

/// Powers of two are positive.
proof fn lemma_pow2_pos(k: int)
    ensures
        pow2(k) >= 1,
    decreases k,
{
    if k > 0 {
        lemma_pow2_pos(k - 1);
    }
}

/// Powers of two grow with the exponent.
proof fn lemma_pow2_mono(a: int, b: int)
    requires
        a <= b,
    ensures
        pow2(a) <= pow2(b),
    decreases b - a,
{
    if a < b {
        lemma_pow2_mono(a, b - 1);
        lemma_pow2_pos(b - 1);
        if b > 0 {
            assert(pow2(b) == 2 * pow2(b - 1));
        }
    }
}

/// Finds the position of the highest binary digit.
fn msb_exec(x: u64) -> (r: u32)
    requires
        x >= 1,
    ensures
        r == msb(x as int),
        r <= 63,
    decreases x,
{
    proof {
        lemma_pow2_values();
        lemma_msb_lt(x as int, 64);
    }
    if x < 2 {
        0
    } else {
        1 + msb_exec(x / 2)
    }
}

/// The fractional bits of a base-two logarithm, by repeated squaring of a
/// mantissa scaled to thirty-two bits.
pub open spec fn frac_bits(m: int, k: nat) -> int
    decreases k,
{
    if k == 0 {
        0
    } else {
        let m2 = m * m / 0x1_0000_0000;
        if m2 >= 0x2_0000_0000 {
            pow2(k - 1) + frac_bits(m2 / 2, (k - 1) as nat)
        } else {
            frac_bits(m2, (k - 1) as nat)
        }
    }
}

/// Computes the fractional bits of a base-two logarithm.
fn frac_bits_exec(m: u128, k: u32) -> (r: u64)
    requires
        0x1_0000_0000 <= m < 0x2_0000_0000,
        k <= 16,
    ensures
        r == frac_bits(m as int, k as nat),
        r < pow2(k as int),
    decreases k,
{
    if k == 0 {
        proof {
            assert(pow2(0int) == 1);
        }
        0
    } else {
        proof {
            assert(m * m < 0x2_0000_0000 * 0x2_0000_0000) by (nonlinear_arith)
                requires
                    m < 0x2_0000_0000,
                    m >= 0,
            ;
            assert(m * m >= 0x1_0000_0000 * 0x1_0000_0000) by (nonlinear_arith)
                requires
                    m >= 0x1_0000_0000,
            ;
        }
        let m2: u128 = m * m / 0x1_0000_0000;
        if m2 >= 0x2_0000_0000 {
            let rest = frac_bits_exec(m2 / 2, k - 1);
            let p: u64 = pow2_u64(k - 1);
            proof {
                assert(pow2(k as int) == 2 * pow2(k as int - 1));
                lemma_pow2_16_bound(k as int - 1);
            }
            p + rest
        } else {
            frac_bits_exec(m2, k - 1)
        }
    }
}

/// Computes a small power of two.
fn pow2_u64(k: u32) -> (r: u64)
    requires
        k <= 16,
    ensures
        r == pow2(k as int),
        r >= 1,
    decreases k,
{
    if k == 0 {
        1
    } else {
        let p = pow2_u64(k - 1);
        proof {
            assert(pow2(k as int) == 2 * pow2(k as int - 1));
            lemma_pow2_16_bound(k as int);
        }
        2 * p
    }
}

/// Small powers of two stay small.
proof fn lemma_pow2_16_bound(k: int)
    requires
        k <= 16,
    ensures
        pow2(k) <= 65536,
{
    lemma_pow2_values();
    lemma_pow2_mono(k, 16);
}

/// The base-two logarithm in sixteen-bit fixed point.
pub open spec fn lg16(x: int) -> int {
    if x < 1 {
        0
    } else {
        msb(x) * 65536 + frac_bits(x * 0x1_0000_0000 / pow2(msb(x)), 16)
    }
}

/// Computes the base-two logarithm in sixteen-bit fixed point.
fn lg16_exec(x: u64) -> (r: u64)
    requires
        x >= 1,
    ensures
        r == lg16(x as int),
        r < 0x800000,
{
    let ip = msb_exec(x);
    let p = pow2_u64_wide(ip);
    let m: u128 = (x as u128) * 0x1_0000_0000 / (p as u128);
    proof {
        lemma_msb_bounds(x as int);
        assert((x as int) * 0x1_0000_0000 >= pow2(ip as int) * 0x1_0000_0000) by (nonlinear_arith)
            requires
                x as int >= pow2(ip as int),
        ;
        assert((x as int) * 0x1_0000_0000 / pow2(ip as int) >= 0x1_0000_0000) by (nonlinear_arith)
            requires
                (x as int) * 0x1_0000_0000 >= pow2(ip as int) * 0x1_0000_0000,
                pow2(ip as int) >= 1,
        ;
        assert((x as int) * 0x1_0000_0000 < pow2(ip as int + 1) * 0x1_0000_0000)
            by (nonlinear_arith)
            requires
                (x as int) < pow2(ip as int + 1),
        ;
        assert(pow2(ip as int + 1) == 2 * pow2(ip as int));
        assert((x as int) * 0x1_0000_0000 / pow2(ip as int) < 0x2_0000_0000) by (nonlinear_arith)
            requires
                (x as int) * 0x1_0000_0000 < 2 * pow2(ip as int) * 0x1_0000_0000,
                pow2(ip as int) >= 1,
        ;
    }
    let f = frac_bits_exec(m, 16);
    proof {
        lemma_pow2_16_bound(16);
        assert(frac_bits(m as int, 16) < pow2(16int));
    }
    (ip as u64) * 65536 + f
}

/// Computes a power of two up to the sixty-third.
fn pow2_u64_wide(k: u32) -> (r: u64)
    requires
        k <= 63,
    ensures
        r == pow2(k as int),
        r >= 1,
    decreases k,
{
    if k == 0 {
        1
    } else {
        let p = pow2_u64_wide(k - 1);
        proof {
            assert(pow2(k as int) == 2 * pow2(k as int - 1));
            lemma_pow2_63_bound(k as int);
        }
        2 * p
    }
}

/// Powers of two below the width of a word fit a word.
proof fn lemma_pow2_63_bound(k: int)
    requires
        k <= 63,
    ensures
        pow2(k) <= 0x8000_0000_0000_0000,
{
    lemma_pow2_values();
    lemma_pow2_mono(k, 63);
}

/// How often the character appears in the text.
pub open spec fn char_count(t: Seq<char>, c: char) -> int {
    t.filter(|x: char| x == c).len() as int
}

/// Counts the character's occurrences.
fn char_count_exec(t: &Vec<char>, c: char) -> (r: usize)
    ensures
        r == char_count(t@, c),
        r <= t@.len(),
{
    let mut count: usize = 0;
    let mut i: usize = 0;
    proof {
        reveal(Seq::filter);
        assert(t@.take(0) =~= Seq::<char>::empty());
        assert(count == char_count(t@.take(0), c));
    }
    while i < t.len()
        invariant
            i <= t@.len(),
            count == char_count(t@.take(i as int), c),
            count <= i,
        decreases t@.len() - i,
    {
        proof {
            reveal(Seq::filter);
            assert(t@.take((i + 1) as int).drop_last() =~= t@.take(i as int));
            assert(t@.take((i + 1) as int).last() == t@[i as int]);
        }
        if t[i] == c {
            count = count + 1;
        }
        i = i + 1;
    }
    proof {
        assert(t@.take(t@.len() as int) =~= t@);
    }
    count
}

/// The sum over all positions of the fixed-point logarithm of the
/// position's character count.
pub open spec fn count_log_sum(t: Seq<char>, i: int) -> int
    decreases t.len() - i,
{
    if i < 0 || i >= t.len() {
        0
    } else {
        lg16(char_count(t, t[i])) + count_log_sum(t, i + 1)
    }
}

/// Whether the text's Shannon entropy, in fixed point, reaches four and a
/// half bits per symbol.
pub open spec fn high_entropy(t: Seq<char>) -> bool {
    t.len() >= 1 && t.len() * lg16(t.len() as int) >= count_log_sum(t, 0) + 294912 * t.len()
}

/// Decides whether the text has high entropy.
fn high_entropy_exec(t: &Vec<char>) -> (r: bool)
    requires
        t@.len() >= 1,
    ensures
        r == high_entropy(t@),
{
    let n = t.len();
    let mut sum: u128 = 0;
    let mut i: usize = 0;
    while i < n
        invariant
            i <= n,
            n == t@.len(),
            n >= 1,
            count_log_sum(t@, 0) == sum + count_log_sum(t@, i as int),
            sum <= (i as int) * 0x800000,
        decreases n - i,
    {
        let c = char_count_exec(t, t[i]);
        proof {
            assert(char_count(t@, t@[i as int]) >= 1) by {
                reveal(Seq::filter);
                Seq::lemma_filter_contains(t@, |x: char| x == t@[i as int], i as int);
                broadcast use vstd::seq_lib::group_to_multiset_ensures;

                let f = t@.filter(|x: char| x == t@[i as int]);
                assert(f.contains(t@[i as int]));
                let k = choose|k: int| 0 <= k < f.len() && f[k] == t@[i as int];
            };
        }
        let lg = lg16_exec(c as u64);
        proof {
            assert(sum + lg <= ((i + 1) as int) * 0x800000) by (nonlinear_arith)
                requires
                    sum <= (i as int) * 0x800000,
                    lg < 0x800000,
            ;
            lemma_sum_small(i as int, sum + lg);
        }
        sum = sum + (lg as u128);
        i = i + 1;
    }
    proof {
        assert(count_log_sum(t@, n as int) == 0);
        lemma_sum_small((n - 1) as int, sum as int);
    }
    let lgn = lg16_exec(n as u64);
    proof {
        lemma_prod_small(n as int, lgn as int);
    }
    let left: u128 = (n as u128) * (lgn as u128);
    let right: u128 = sum + 294912 * (n as u128);
    left >= right
}

/// A per-position bound keeps the running sum within a wide word.
proof fn lemma_sum_small(i: int, v: int)
    requires
        0 <= v <= (i + 1) * 0x800000,
        i < 0x1_0000_0000_0000_0000,
    ensures
        v < 0x8000000_0000_0000_0000_0000,
{
    assert((i + 1) * 0x800000 <= 0x1_0000_0000_0000_0000 * 0x800000) by (nonlinear_arith)
        requires
            i + 1 <= 0x1_0000_0000_0000_0000,
    ;
}

/// The whole-text product fits a wide word.
proof fn lemma_prod_small(n: int, lg: int)
    requires
        0 <= n < 0x1_0000_0000_0000_0000,
        0 <= lg < 0x800000,
    ensures
        n * lg < 0x8000000_0000_0000_0000_0000,
{
    assert(n * lg <= 0x1_0000_0000_0000_0000 * 0x800000) by (nonlinear_arith)
        requires
            n <= 0x1_0000_0000_0000_0000,
            0 <= lg <= 0x800000,
            0 <= n,
    ;
}

/// The high-entropy pass: token runs of at least twenty characters that
/// overlap no recorded span and read as high entropy.
pub open spec fn pass4(s: Seq<char>, i: int, st: ScanState) -> ScanState
    decreases s.len() - i,
{
    if i < 0 || i >= s.len() {
        st
    } else if !is_tok(s[i]) {
        pass4(s, i + 1, st)
    } else {
        let e = i + run_len(s, i, |c: char| is_tok(c));
        if i < e <= s.len() {
            if e - i >= 20 {
                if exists|k: int|
                    0 <= k < st.spans.len() && (#[trigger] st.spans[k]).0 < e && i
                        < st.spans[k].1 {
                    pass4(s, e, st)
                } else if high_entropy(s.subrange(i, e)) {
                    pass4(s, e, add_span(st, i, e, "high-entropy string"@))
                } else {
                    pass4(s, e, st)
                }
            } else {
                pass4(s, e, st)
            }
        } else {
            st
        }
    }
}


/// The spans of an executable state, as mathematical pairs.
pub open spec fn spans_view(v: Seq<(usize, usize)>) -> Seq<(int, int)> {
    v.map_values(|p: (usize, usize)| (p.0 as int, p.1 as int))
}

/// The state a span vector and an issue vector stand for.
pub open spec fn mk_state(spans: Seq<(usize, usize)>, issues: Seq<Seq<char>>) -> ScanState {
    ScanState { spans: spans_view(spans), issues }
}

/// Records a span and its issue, mirroring the containment check.
fn push_span(spans: &mut Vec<(usize, usize)>, issues: &mut Vec<String>, lo: usize, hi: usize, label:
    &str)
    ensures
        mk_state(final(spans)@, final(issues).deep_view()) == add_span(
            mk_state(old(spans)@, old(issues).deep_view()),
            lo as int,
            hi as int,
            label@,
        ),
{
    let ghost st0 = mk_state(spans@, issues.deep_view());
    let mut k: usize = 0;
    while k < spans.len()
        invariant
            k <= spans@.len(),
            st0 == mk_state(spans@, issues.deep_view()),
            st0.spans.len() == spans@.len(),
            forall|m: int|
                0 <= m < k ==> !((#[trigger] st0.spans[m]).0 <= lo as int && hi as int
                    <= st0.spans[m].1),
        decreases spans@.len() - k,
    {
        proof {
            assert(st0.spans[k as int] == (spans@[k as int].0 as int, spans@[k as int].1 as int));
        }
        if spans[k].0 <= lo && hi <= spans[k].1 {
            return ;
        }
        k = k + 1;
    }
    proof {
        if exists|m: int|
            0 <= m < st0.spans.len() && (#[trigger] st0.spans[m]).0 <= lo as int && hi as int
                <= st0.spans[m].1 {
            let m = choose|m: int|
                0 <= m < st0.spans.len() && (#[trigger] st0.spans[m]).0 <= lo as int && hi as int
                    <= st0.spans[m].1;
        }
    }
    let ghost old_spans = spans@;
    let ghost old_issues = issues.deep_view();
    spans.push((lo, hi));
    issues.push(label.to_owned());
    proof {
        assert(spans_view(spans@) =~= spans_view(old_spans).push((lo as int, hi as int)));
        assert(issues.deep_view() =~= old_issues.push(label@));
        assert(mk_state(spans@, issues.deep_view()) =~= add_span(
            mk_state(old_spans, old_issues),
            lo as int,
            hi as int,
            label@,
        ));
    }
}

/// Runs the assignment-style pass.
fn pass1_exec(s: &Vec<char>, spans: &mut Vec<(usize, usize)>, issues: &mut Vec<String>)
    ensures
        mk_state(final(spans)@, final(issues).deep_view()) == pass1(
            s@,
            0,
            mk_state(old(spans)@, old(issues).deep_view()),
        ),
{
    let ghost st0 = mk_state(spans@, issues.deep_view());
    let n = s.len();
    let mut i: usize = 0;
    while i < n
        invariant
            i <= n,
            n == s@.len(),
            pass1(s@, 0, st0) == pass1(s@, i as int, mk_state(spans@, issues.deep_view())),
        decreases n - i,
    {
        let k = kw_end_exec(s, i);
        if k > i {
            let p = k + run_len_sep_exec(s, k);
            if p > k {
                let e = p + run_len_word_exec(s, p);
                if e - p >= 16 {
                    push_span(spans, issues, p, e, "possible API key");
                    proof {
                        assert(e > i);
                    }
                    i = e;
                } else {
                    i = i + 1;
                }
            } else {
                i = i + 1;
            }
        } else {
            i = i + 1;
        }
    }
}

/// Runs the authorized-key pass.
fn pass2_exec(s: &Vec<char>, spans: &mut Vec<(usize, usize)>, issues: &mut Vec<String>)
    ensures
        mk_state(final(spans)@, final(issues).deep_view()) == pass2(
            s@,
            0,
            mk_state(old(spans)@, old(issues).deep_view()),
        ),
{
    let ghost st0 = mk_state(spans@, issues.deep_view());
    let n = s.len();
    let mut i: usize = 0;
    while i < n
        invariant
            i <= n,
            n == s@.len(),
            pass2(s@, 0, st0) == pass2(s@, i as int, mk_state(spans@, issues.deep_view())),
        decreases n - i,
    {
        proof {
            reveal_strlit("ssh-rsa ");
            reveal_strlit("ssh-ed25519 ");
        }
        let h = if match_at_exec(s, i, "ssh-rsa ") {
            i + 8
        } else if match_at_exec(s, i, "ssh-ed25519 ") {
            i + 12
        } else {
            i
        };
        if h > i {
            let e = h + run_len_b64_exec(s, h);
            if e - h >= 20 {
                push_span(spans, issues, i, e, "possible SSH key");
                i = e;
            } else {
                i = i + 1;
            }
        } else {
            i = i + 1;
        }
    }
}

/// Runs the armored private key pass.
fn pass3_exec(s: &Vec<char>, spans: &mut Vec<(usize, usize)>, issues: &mut Vec<String>)
    ensures
        mk_state(final(spans)@, final(issues).deep_view()) == pass3(
            s@,
            0,
            mk_state(old(spans)@, old(issues).deep_view()),
        ),
{
    let ghost st0 = mk_state(spans@, issues.deep_view());
    let n = s.len();
    let mut i: usize = 0;
    while i < n
        invariant
            i <= n,
            n == s@.len(),
            pass3(s@, 0, st0) == pass3(s@, i as int, mk_state(spans@, issues.deep_view())),
        decreases n - i,
    {
        let h = pem_begin_end_exec(s, i);
        if h > i && h < n {
            let e = find_pem_end_exec(s, h + 1);
            if e > h {
                push_span(spans, issues, i, e, "possible private key");
                i = e;
            } else {
                i = i + 1;
            }
        } else {
            i = i + 1;
        }
    }
}

/// Runs the high-entropy pass.
fn pass4_exec(s: &Vec<char>, spans: &mut Vec<(usize, usize)>, issues: &mut Vec<String>)
    ensures
        mk_state(final(spans)@, final(issues).deep_view()) == pass4(
            s@,
            0,
            mk_state(old(spans)@, old(issues).deep_view()),
        ),
{
    let ghost st0 = mk_state(spans@, issues.deep_view());
    let n = s.len();
    let mut i: usize = 0;
    while i < n
        invariant
            i <= n,
            n == s@.len(),
            pass4(s@, 0, st0) == pass4(s@, i as int, mk_state(spans@, issues.deep_view())),
        decreases n - i,
    {
        if !is_tok_exec(s[i]) {
            i = i + 1;
        } else {
            let e = i + run_len_tok_exec(s, i);
            proof {
                lemma_run_len_bounds(s@, (i + 1) as int, |c: char| is_tok(c));
                assert(run_len(s@, i as int, |c: char| is_tok(c)) >= 1);
            }
            if e - i >= 20 {
                let ghost cur = mk_state(spans@, issues.deep_view());
                let mut overlap = false;
                let mut m: usize = 0;
                while m < spans.len() && !overlap
                    invariant
                        m <= spans@.len(),
                        cur == mk_state(spans@, issues.deep_view()),
                        cur.spans.len() == spans@.len(),
                        overlap ==> exists|k: int|
                            0 <= k < cur.spans.len() && (#[trigger] cur.spans[k]).0 < e as int && (
                            i as int) < cur.spans[k].1,
                        !overlap ==> forall|k: int|
                            0 <= k < m ==> !((#[trigger] cur.spans[k]).0 < e as int && (i as int)
                                < cur.spans[k].1),
                    decreases spans@.len() - m + (if overlap {
                        0int
                    } else {
                        1int
                    }),
                {
                    proof {
                        assert(cur.spans[m as int] == (
                            spans@[m as int].0 as int,
                            spans@[m as int].1 as int,
                        ));
                    }
                    if spans[m].0 < e && i < spans[m].1 {
                        overlap = true;
                    } else {
                        m = m + 1;
                    }
                }
                proof {
                    if !overlap && exists|k: int|
                        0 <= k < cur.spans.len() && (#[trigger] cur.spans[k]).0 < e as int && (
                        i as int) < cur.spans[k].1 {
                        let k = choose|k: int|
                            0 <= k < cur.spans.len() && (#[trigger] cur.spans[k]).0 < e as int && (
                            i as int) < cur.spans[k].1;
                    }
                }
                if overlap {
                    i = e;
                } else {
                    let run = crate::store::subrange_chars(s, i, e);
                    if high_entropy_exec(&run) {
                        push_span(spans, issues, i, e, "high-entropy string");
                        i = e;
                    } else {
                        i = e;
                    }
                }
            } else {
                i = e;
            }
        }
    }
}

/// Places a span behind every span starting at or before it: stable
/// insertion by start.
pub open spec fn insert_span(x: (int, int), s: Seq<(int, int)>) -> Seq<(int, int)>
    decreases s.len(),
{
    if s.len() == 0 {
        seq![x]
    } else if s[0].0 <= x.0 {
        seq![s[0]] + insert_span(x, s.drop_first())
    } else {
        seq![x] + s
    }
}

/// Stable sort of spans by start.
pub open spec fn sort_spans(s: Seq<(int, int)>) -> Seq<(int, int)>
    decreases s.len(),
{
    if s.len() == 0 {
        Seq::empty()
    } else {
        insert_span(s.last(), sort_spans(s.drop_last()))
    }
}

/// Sorts recorded spans by start.
fn sort_spans_exec(spans: &Vec<(usize, usize)>) -> (r: Vec<(usize, usize)>)
    ensures
        spans_view(r@) == sort_spans(spans_view(spans@)),
{
    let ghost sv = spans_view(spans@);
    let mut out: Vec<(usize, usize)> = Vec::new();
    let mut i: usize = 0;
    proof {
        assert(sv.take(0) =~= Seq::<(int, int)>::empty());
        assert(spans_view(out@) =~= Seq::<(int, int)>::empty());
    }
    while i < spans.len()
        invariant
            i <= spans@.len(),
            sv == spans_view(spans@),
            sv.len() == spans@.len(),
            spans_view(out@) == sort_spans(sv.take(i as int)),
        decreases spans@.len() - i,
    {
        let x = spans[i];
        let ghost s = spans_view(out@);
        let mut j: usize = 0;
        proof {
            assert(s.skip(0) =~= s);
        }
        while j < out.len() && out[j].0 <= x.0
            invariant
                j <= out@.len(),
                s == spans_view(out@),
                s.len() == out@.len(),
                insert_span((x.0 as int, x.1 as int), s) == s.take(j as int) + insert_span(
                    (x.0 as int, x.1 as int),
                    s.skip(j as int),
                ),
            decreases out@.len() - j,
        {
            proof {
                assert(s.skip(j as int)[0] == s[j as int]);
                assert(s[j as int] == (out@[j as int].0 as int, out@[j as int].1 as int));
                assert(s.skip(j as int).drop_first() =~= s.skip((j + 1) as int));
                assert(s.take(j as int) + (seq![s[j as int]] + insert_span(
                    (x.0 as int, x.1 as int),
                    s.skip((j + 1) as int),
                )) =~= s.take((j + 1) as int) + insert_span(
                    (x.0 as int, x.1 as int),
                    s.skip((j + 1) as int),
                ));
            }
            j = j + 1;
        }
        proof {
            if j < out@.len() {
                assert(s.skip(j as int)[0] == s[j as int]);
                assert(s[j as int] == (out@[j as int].0 as int, out@[j as int].1 as int));
                assert(insert_span((x.0 as int, x.1 as int), s.skip(j as int)) == seq![
                    (x.0 as int, x.1 as int),
                ] + s.skip(j as int));
            } else {
                assert(s.skip(j as int).len() == 0);
                assert(insert_span((x.0 as int, x.1 as int), s.skip(j as int)) == seq![
                    (x.0 as int, x.1 as int),
                ]);
                assert(seq![(x.0 as int, x.1 as int)] =~= seq![(x.0 as int, x.1 as int)] + s.skip(
                    j as int,
                ));
            }
        }
        out.insert(j, x);
        proof {
            assert(spans_view(out@) =~= s.take(j as int) + (seq![(x.0 as int, x.1 as int)]
                + s.skip(j as int)));
            assert(sv.take((i + 1) as int).last() == sv[i as int]);
            assert(sv[i as int] == (spans@[i as int].0 as int, spans@[i as int].1 as int));
            assert(sv.take((i + 1) as int).drop_last() =~= sv.take(i as int));
        }
        i = i + 1;
    }
    proof {
        assert(sv.take(sv.len() as int) =~= sv);
    }
    out
}

/// Merges sorted spans, folding any overlapping or touching neighbor into
/// the span being grown.
pub open spec fn merge_acc(s: Seq<(int, int)>, cur: (int, int)) -> Seq<(int, int)>
    decreases s.len(),
{
    if s.len() == 0 {
        seq![cur]
    } else {
        let x = s[0];
        if x.0 <= cur.1 {
            merge_acc(
                s.drop_first(),
                (
                    cur.0,
                    if x.1 > cur.1 {
                        x.1
                    } else {
                        cur.1
                    },
                ),
            )
        } else {
            seq![cur] + merge_acc(s.drop_first(), x)
        }
    }
}

/// The merged form of a sorted span sequence.
pub open spec fn merge_spans(s: Seq<(int, int)>) -> Seq<(int, int)> {
    if s.len() == 0 {
        Seq::empty()
    } else {
        merge_acc(s.drop_first(), s[0])
    }
}

/// Merges sorted spans.
fn merge_spans_exec(spans: &Vec<(usize, usize)>) -> (r: Vec<(usize, usize)>)
    ensures
        spans_view(r@) == merge_spans(spans_view(spans@)),
{
    let ghost sv = spans_view(spans@);
    let mut out: Vec<(usize, usize)> = Vec::new();
    if spans.len() == 0 {
        proof {
            assert(spans_view(out@) =~= Seq::<(int, int)>::empty());
        }
        return out;
    }
    let mut cur: (usize, usize) = spans[0];
    let mut k: usize = 1;
    proof {
        assert(sv[0] == (spans@[0].0 as int, spans@[0].1 as int));
        assert(sv.skip(1) =~= sv.drop_first());
        assert(spans_view(out@) =~= Seq::<(int, int)>::empty());
    }
    while k < spans.len()
        invariant
            1 <= k <= spans@.len(),
            sv == spans_view(spans@),
            sv.len() == spans@.len(),
            merge_spans(sv) == spans_view(out@) + merge_acc(
                sv.skip(k as int),
                (cur.0 as int, cur.1 as int),
            ),
        decreases spans@.len() - k,
    {
        proof {
            assert(sv.skip(k as int)[0] == sv[k as int]);
            assert(sv[k as int] == (spans@[k as int].0 as int, spans@[k as int].1 as int));
            assert(sv.skip(k as int).drop_first() =~= sv.skip((k + 1) as int));
        }
        let x = spans[k];
        if x.0 <= cur.1 {
            cur = (cur.0, if x.1 > cur.1 { x.1 } else { cur.1 });
        } else {
            let ghost prev = spans_view(out@);
            out.push(cur);
            proof {
                assert(spans_view(out@) =~= prev.push((cur.0 as int, cur.1 as int)));
                assert(prev + (seq![(cur.0 as int, cur.1 as int)] + merge_acc(
                    sv.skip((k + 1) as int),
                    (x.0 as int, x.1 as int),
                )) =~= spans_view(out@) + merge_acc(
                    sv.skip((k + 1) as int),
                    (x.0 as int, x.1 as int),
                ));
            }
            cur = x;
        }
        k = k + 1;
    }
    proof {
        assert(sv.skip(sv.len() as int).len() == 0);
    }
    let ghost prev = spans_view(out@);
    out.push(cur);
    proof {
        assert(spans_view(out@) =~= prev.push((cur.0 as int, cur.1 as int)));
        assert(prev + seq![(cur.0 as int, cur.1 as int)] =~= spans_view(out@));
    }
    out
}

/// The masked text: the text outside the merged spans, each span replaced
/// by the sentinel.
pub open spec fn mask_spec(s: Seq<char>, merged: Seq<(int, int)>, last: int) -> Seq<char>
    decreases merged.len(),
{
    if merged.len() == 0 {
        s.skip(last)
    } else {
        let a = merged[0].0;
        let b = merged[0].1;
        if last <= a && a <= b && b <= s.len() {
            s.subrange(last, a) + sentinel() + mask_spec(s, merged.drop_first(), b)
        } else {
            s.skip(last)
        }
    }
}

/// Renders the masked text.
fn mask_exec(s: &Vec<char>, merged: &Vec<(usize, usize)>) -> (r: Vec<char>)
    ensures
        r@ == mask_spec(s@, spans_view(merged@), 0),
{
    let ghost mv = spans_view(merged@);
    let mut out: Vec<char> = Vec::new();
    let mut last: usize = 0;
    let mut k: usize = 0;
    proof {
        assert(mv.skip(0) =~= mv);
        assert(out@ + mask_spec(s@, mv, 0) =~= mask_spec(s@, mv, 0));
    }
    while k < merged.len()
        invariant
            k <= merged@.len(),
            mv == spans_view(merged@),
            mv.len() == merged@.len(),
            last <= s@.len(),
            mask_spec(s@, mv, 0) == out@ + mask_spec(s@, mv.skip(k as int), last as int),
        decreases merged@.len() - k,
    {
        proof {
            assert(mv.skip(k as int)[0] == mv[k as int]);
            assert(mv[k as int] == (merged@[k as int].0 as int, merged@[k as int].1 as int));
            assert(mv.skip(k as int).drop_first() =~= mv.skip((k + 1) as int));
        }
        let a = merged[k].0;
        let b = merged[k].1;
        if last <= a && a <= b && b <= s.len() {
            let ghost prev = out@;
            let mid = crate::store::subrange_chars(s, last, a);
            let mut piece = mid;
            out.append(&mut piece);
            crate::text::push_str_chars(&mut out, "[REDACTED]");
            proof {
                assert(out@ =~= (prev + s@.subrange(last as int, a as int)) + sentinel());
                assert(prev + (s@.subrange(last as int, a as int) + sentinel() + mask_spec(
                    s@,
                    mv.skip((k + 1) as int),
                    b as int,
                )) =~= out@ + mask_spec(s@, mv.skip((k + 1) as int), b as int));
            }
            last = b;
        } else {
            let mut rest = crate::store::subrange_chars(s, last, s.len());
            let ghost prev = out@;
            out.append(&mut rest);
            proof {
                assert(s@.subrange(last as int, s@.len() as int) =~= s@.skip(last as int));
                assert(out@ =~= prev + s@.skip(last as int));
            }
            return out;
        }
        k = k + 1;
    }
    let mut rest = crate::store::subrange_chars(s, last, s.len());
    let ghost prev = out@;
    out.append(&mut rest);
    proof {
        assert(mv.skip(mv.len() as int).len() == 0);
        assert(s@.subrange(last as int, s@.len() as int) =~= s@.skip(last as int));
        assert(out@ =~= prev + s@.skip(last as int));
    }
    out
}

/// The state after all four detection passes over a text.
pub open spec fn scan_all(s: Seq<char>) -> ScanState {
    pass4(
        s,
        0,
        pass3(
            s,
            0,
            pass2(s, 0, pass1(s, 0, ScanState { spans: Seq::empty(), issues: Seq::empty() })),
        ),
    )
}

/// The masked form of a text.
pub open spec fn masked_spec(s: Seq<char>) -> Seq<char> {
    mask_spec(s, merge_spans(sort_spans(scan_all(s).spans)), 0)
}

/// Scans a candidate text for likely secrets: returns the text with every
/// finding masked by the sentinel, the issues in detection order, and
/// whether anything at all was found.
pub fn redact_candidate(s: &str) -> (r: Redaction)
    ensures
        r.masked@ == masked_spec(s@),
        r.issues.deep_view() == scan_all(s@).issues,
        r.blocked == (scan_all(s@).issues.len() > 0),
{
    let cs = str_to_chars(s);
    let mut spans: Vec<(usize, usize)> = Vec::new();
    let mut issues: Vec<String> = Vec::new();
    proof {
        assert(mk_state(spans@, issues.deep_view()) =~= (ScanState {
            spans: Seq::empty(),
            issues: Seq::empty(),
        }));
    }
    pass1_exec(&cs, &mut spans, &mut issues);
    pass2_exec(&cs, &mut spans, &mut issues);
    pass3_exec(&cs, &mut spans, &mut issues);
    pass4_exec(&cs, &mut spans, &mut issues);
    let sorted = sort_spans_exec(&spans);
    let merged = merge_spans_exec(&sorted);
    let masked_chars = mask_exec(&cs, &merged);
    let masked = chars_to_string(&masked_chars);
    let blocked = issues.len() > 0;
    Redaction { masked, issues, blocked }
}

/// Each pass raises exactly one issue for each span it records.
proof fn lemma_pass_lens(s: Seq<char>, i: int, st: ScanState)
    requires
        st.spans.len() == st.issues.len(),
    ensures
        pass1(s, i, st).spans.len() == pass1(s, i, st).issues.len(),
        pass2(s, i, st).spans.len() == pass2(s, i, st).issues.len(),
        pass3(s, i, st).spans.len() == pass3(s, i, st).issues.len(),
        pass4(s, i, st).spans.len() == pass4(s, i, st).issues.len(),
    decreases s.len() - i,
{
    if i < 0 || i >= s.len() {
    } else {
        lemma_pass_lens(s, i + 1, st);
        let k = kw_end(s, i);
        if i < k <= s.len() {
            let p = k + run_len(s, k, |c: char| is_sep(c));
            if k < p <= s.len() {
                let e = p + run_len(s, p, |c: char| is_word(c));
                if e - p >= 16 && e <= s.len() {
                    lemma_pass_lens(s, e, add_span(st, p, e, "possible API key"@));
                }
            }
        }
        let h2 = if match_at(s, i, "ssh-rsa "@) {
            i + 8
        } else if match_at(s, i, "ssh-ed25519 "@) {
            i + 12
        } else {
            i
        };
        if i < h2 <= s.len() {
            let e = h2 + run_len(s, h2, |c: char| is_b64(c));
            if e - h2 >= 20 && e <= s.len() {
                lemma_pass_lens(s, e, add_span(st, i, e, "possible SSH key"@));
            }
        }
        let h3 = pem_begin_end(s, i);
        if i < h3 && h3 < s.len() {
            let e = find_pem_end(s, h3 + 1);
            if h3 < e <= s.len() {
                lemma_pass_lens(s, e, add_span(st, i, e, "possible private key"@));
            }
        }
        if is_tok(s[i]) {
            let e = i + run_len(s, i, |c: char| is_tok(c));
            if i < e <= s.len() {
                if e - i >= 20 {
                    lemma_pass_lens(s, e, st);
                    lemma_pass_lens(s, e, add_span(st, i, e, "high-entropy string"@));
                }
                lemma_pass_lens(s, e, st);
            }
        }
    }
}

/// A text in which no pass finds anything comes back unchanged and raises
/// no issues: redaction of clean text, and so of already redacted clean
/// text, is the identity.
pub proof fn lemma_redact_clean(s: Seq<char>)
    requires
        scan_all(s).issues.len() == 0,
    ensures
        masked_spec(s) == s,
{
    let st0 = ScanState { spans: Seq::empty(), issues: Seq::empty() };
    lemma_pass_lens(s, 0, st0);
    let st1 = pass1(s, 0, st0);
    lemma_pass_lens(s, 0, st1);
    let st2 = pass2(s, 0, st1);
    lemma_pass_lens(s, 0, st2);
    let st3 = pass3(s, 0, st2);
    lemma_pass_lens(s, 0, st3);
    lemma_state_monotone(s, st0, st1, st2, st3);
    assert(scan_all(s).spans.len() == 0);
    assert(sort_spans(scan_all(s).spans) == Seq::<(int, int)>::empty());
    assert(merge_spans(Seq::<(int, int)>::empty()) == Seq::<(int, int)>::empty());
    assert(mask_spec(s, Seq::empty(), 0) == s.skip(0));
    assert(s.skip(0) =~= s);
}

/// The pass states only grow.
proof fn lemma_state_monotone(
    s: Seq<char>,
    st0: ScanState,
    st1: ScanState,
    st2: ScanState,
    st3: ScanState,
)
    requires
        st0.spans.len() == st0.issues.len(),
        st1 == pass1(s, 0, st0),
        st2 == pass2(s, 0, st1),
        st3 == pass3(s, 0, st2),
        pass4(s, 0, st3).issues.len() == 0,
    ensures
        pass4(s, 0, st3).spans.len() == 0,
{
    lemma_pass_lens(s, 0, st0);
    lemma_pass_lens(s, 0, st1);
    lemma_pass_lens(s, 0, st2);
    lemma_pass_lens(s, 0, st3);
}

} // verus!
