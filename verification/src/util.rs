//! Token cleanup and qualification. `cleanup_word` trims whitespace, then
//! quotation marks, then symbol punctuation from both ends of a token;
//! `word_qualifies` decides whether the cleaned token is real text worth
//! counting.

use vstd::prelude::*;
use vstd::string::StrSliceExecFns;

use crate::foreign::char_is_numeric;
use crate::foreign::char_is_zalgo;
use crate::foreign::is_numeric_char;
use crate::foreign::is_parseable_url;
use crate::foreign::is_zalgo_char;
use crate::foreign::url_parses;

verus! {

// ---------------------------------------------------------------------------
// Character classes
// ---------------------------------------------------------------------------

/// The characters with Unicode's White_Space property, as `str::trim` sees
/// them.
pub open spec fn is_space_char(c: char) -> bool {
    let u = c as u32;
    (0x9 <= u && u <= 0xD) || u == 0x20 || u == 0x85 || u == 0xA0 || u == 0x1680 || (0x2000 <= u
        && u <= 0x200A) || u == 0x2028 || u == 0x2029 || u == 0x202F || u == 0x205F || u == 0x3000
}

/// The quotation-mark variants trimmed from token edges, typographic and CJK
/// glyphs included.
pub open spec fn is_quote_char(c: char) -> bool {
    let u = c as u32;
    u == 0x22 || u == 0x27 || u == 0x60 || u == 0x201A || u == 0x2018 || u == 0x2019 || u == 0x201C
        || u == 0x201D || u == 0x201E || u == 0x201F || u == 0x275B || u == 0x275C || u == 0x275D
        || u == 0x275E || u == 0x301D || u == 0x301E || u == 0x301F || u == 0xFF02
}

/// The ASCII symbol punctuation trimmed from token edges.
pub open spec fn is_trim_symbol_char(c: char) -> bool {
    c == '!' || c == '$' || c == '%' || c == '^' || c == '&' || c == '*' || c == '(' || c == ')'
        || c == '_' || c == '-' || c == '+' || c == '=' || c == '<' || c == ',' || c == '>'
        || c == '.' || c == '?' || c == '/' || c == '{' || c == '}' || c == '[' || c == ']'
        || c == '\\' || c == '|' || c == '~' || c == '\t' || c == '\r' || c == '\n'
}

/// The fixed symbol set a token may not consist of entirely.
pub open spec fn is_noise_symbol_char(c: char) -> bool {
    c == '!' || c == '@' || c == '#' || c == '$' || c == '%' || c == '^' || c == '&' || c == '*'
        || c == '(' || c == ')' || c == '_' || c == '-' || c == '+' || c == '=' || c == '<'
        || c == ',' || c == '>' || c == '.' || c == '?' || c == '/' || c == '\'' || c == '"'
        || c == '{' || c == '[' || c == '}' || c == ']' || c == '\\' || c == '|' || c == '`'
        || c == '~' || c == '\t' || c == '\r' || c == '\n'
}

/// The emoji block and fitzpatrick-modifier scalar ranges.
pub open spec fn is_emoji_char(c: char) -> bool {
    let u = c as u32;
    (0x1F3FB <= u && u <= 0x1F3FF) || (0x1F600 <= u && u <= 0x1F64F)
}

/// ASCII control characters.
pub open spec fn is_control_char(c: char) -> bool {
    let u = c as u32;
    u <= 0x1F || u == 0x7F
}

/// The three classes `cleanup_word` trims, in trimming order.
#[derive(Clone, Copy)]
pub enum CharClass {
    Space,
    Quote,
    Symbol,
}

pub open spec fn class_fn(k: CharClass) -> spec_fn(char) -> bool {
    match k {
        CharClass::Space => |c: char| is_space_char(c),
        CharClass::Quote => |c: char| is_quote_char(c),
        CharClass::Symbol => |c: char| is_trim_symbol_char(c),
    }
}

fn class_char(k: CharClass, c: char) -> (b: bool)
    ensures
        b == (class_fn(k))(c),
{
    let u = c as u32;
    match k {
        CharClass::Space => (0x9 <= u && u <= 0xD) || u == 0x20 || u == 0x85 || u == 0xA0 || u
            == 0x1680 || (0x2000 <= u && u <= 0x200A) || u == 0x2028 || u == 0x2029 || u == 0x202F
            || u == 0x205F || u == 0x3000,
        CharClass::Quote => u == 0x22 || u == 0x27 || u == 0x60 || u == 0x201A || u == 0x2018 || u
            == 0x2019 || u == 0x201C || u == 0x201D || u == 0x201E || u == 0x201F || u == 0x275B
            || u == 0x275C || u == 0x275D || u == 0x275E || u == 0x301D || u == 0x301E || u
            == 0x301F || u == 0xFF02,
        CharClass::Symbol => c == '!' || c == '$' || c == '%' || c == '^' || c == '&' || c == '*'
            || c == '(' || c == ')' || c == '_' || c == '-' || c == '+' || c == '=' || c == '<'
            || c == ',' || c == '>' || c == '.' || c == '?' || c == '/' || c == '{' || c == '}'
            || c == '[' || c == ']' || c == '\\' || c == '|' || c == '~' || c == '\t' || c == '\r'
            || c == '\n',
    }
}

// ---------------------------------------------------------------------------
// Edge trimming
// ---------------------------------------------------------------------------

/// How many leading characters of `s` satisfy `p`.
pub open spec fn count_leading(s: Seq<char>, p: spec_fn(char) -> bool) -> int
    decreases s.len(),
{
    if s.len() == 0 || !p(s[0]) {
        0
    } else {
        1 + count_leading(s.drop_first(), p)
    }
}

/// How many trailing characters of `s` satisfy `p`.
pub open spec fn count_trailing(s: Seq<char>, p: spec_fn(char) -> bool) -> int
    decreases s.len(),
{
    if s.len() == 0 || !p(s.last()) {
        0
    } else {
        1 + count_trailing(s.drop_last(), p)
    }
}

/// `s` with every leading and trailing run of characters satisfying `p`
/// removed, as `str::trim_matches` does.
pub open spec fn trim_edges(s: Seq<char>, p: spec_fn(char) -> bool) -> Seq<char> {
    let lead = count_leading(s, p);
    if lead == s.len() {
        Seq::empty()
    } else {
        s.subrange(lead, s.len() - count_trailing(s, p))
    }
}

/// What `cleanup_word` returns: whitespace, then quotation marks, then symbol
/// punctuation, each trimmed from the outer edges only.
pub open spec fn clean_spec(s: Seq<char>) -> Seq<char> {
    trim_edges(
        trim_edges(trim_edges(s, class_fn(CharClass::Space)), class_fn(CharClass::Quote)),
        class_fn(CharClass::Symbol),
    )
}

proof fn lemma_count_leading_at(s: Seq<char>, p: spec_fn(char) -> bool, a: int)
    requires
        0 <= a <= s.len(),
        forall|j: int| 0 <= j < a ==> p(#[trigger] s[j]),
        a < s.len() ==> !p(s[a]),
    ensures
        count_leading(s, p) == a,
    decreases a,
{
    if a > 0 {
        assert(p(s[0]));
        assert(forall|j: int| 0 <= j < a - 1 ==> #[trigger] s.drop_first()[j] == s[j + 1]);
        lemma_count_leading_at(s.drop_first(), p, a - 1);
    }
}

proof fn lemma_count_trailing_at(s: Seq<char>, p: spec_fn(char) -> bool, t: int)
    requires
        0 <= t <= s.len(),
        forall|j: int| s.len() - t <= j < s.len() ==> p(#[trigger] s[j]),
        t < s.len() ==> !p(s[s.len() - t - 1]),
    ensures
        count_trailing(s, p) == t,
    decreases t,
{
    if t > 0 {
        assert(p(s[s.len() - 1]));
        assert(forall|j: int| 0 <= j < s.len() - 1 ==> #[trigger] s.drop_last()[j] == s[j]);
        lemma_count_trailing_at(s.drop_last(), p, t - 1);
    }
}

/// Trimming yields exactly the subrange whose outside is all `p` and whose
/// first and last characters, if any, are not.
proof fn lemma_trim_edges_at(s: Seq<char>, p: spec_fn(char) -> bool, a: int, b: int)
    requires
        0 <= a <= b <= s.len(),
        forall|j: int| 0 <= j < a ==> p(#[trigger] s[j]),
        forall|j: int| b <= j < s.len() ==> p(#[trigger] s[j]),
        a < b ==> !p(s[a]) && !p(s[b - 1]),
    ensures
        trim_edges(s, p) == s.subrange(a, b),
{
    if a == b {
        lemma_count_leading_at(s, p, s.len() as int);
        assert(trim_edges(s, p) =~= s.subrange(a, b));
    } else {
        lemma_count_leading_at(s, p, a);
        lemma_count_trailing_at(s, p, s.len() - b);
    }
}

proof fn lemma_count_leading_bounds(s: Seq<char>, p: spec_fn(char) -> bool)
    ensures
        0 <= count_leading(s, p) <= s.len(),
        count_leading(s, p) < s.len() ==> !p(s[count_leading(s, p)]),
        forall|j: int| 0 <= j < count_leading(s, p) ==> p(#[trigger] s[j]),
    decreases s.len(),
{
    if s.len() > 0 && p(s[0]) {
        lemma_count_leading_bounds(s.drop_first(), p);
        assert(forall|j: int| 0 <= j < s.len() - 1 ==> #[trigger] s.drop_first()[j] == s[j + 1]);
        assert forall|j: int| 0 <= j < count_leading(s, p) implies p(#[trigger] s[j]) by {
            if j > 0 {
                assert(p(s.drop_first()[j - 1]));
            }
        }
    }
}

proof fn lemma_count_trailing_bounds(s: Seq<char>, p: spec_fn(char) -> bool)
    ensures
        0 <= count_trailing(s, p) <= s.len(),
        count_trailing(s, p) < s.len() ==> !p(s[s.len() - count_trailing(s, p) - 1]),
        forall|j: int| s.len() - count_trailing(s, p) <= j < s.len() ==> p(#[trigger] s[j]),
    decreases s.len(),
{
    if s.len() > 0 && p(s.last()) {
        lemma_count_trailing_bounds(s.drop_last(), p);
        assert(forall|j: int| 0 <= j < s.len() - 1 ==> #[trigger] s.drop_last()[j] == s[j]);
        assert forall|j: int| s.len() - count_trailing(s, p) <= j < s.len() implies p(
            #[trigger] s[j],
        ) by {
            if j < s.len() - 1 {
                assert(p(s.drop_last()[j]));
            } else {
                assert(p(s.last()));
            }
        }
    }
}

/// A nonempty trimmed token never begins or ends with a character of the
/// trimmed class, and trimming a token that is not all of one class never
/// empties it.
proof fn lemma_trim_edges_props(s: Seq<char>, p: spec_fn(char) -> bool)
    ensures
        count_leading(s, p) < s.len() ==> trim_edges(s, p).len() > 0,
        trim_edges(s, p).len() > 0 ==> !p(trim_edges(s, p)[0]) && !p(
            trim_edges(s, p)[trim_edges(s, p).len() - 1],
        ),
{
    lemma_count_leading_bounds(s, p);
    lemma_count_trailing_bounds(s, p);
    let lead = count_leading(s, p);
    let trail = count_trailing(s, p);
    if lead < s.len() {
        if s.len() - trail <= lead {
            assert(p(s[lead]));
            assert(false);
        }
    }
}

/// Trimming leaves a token alone when its edges are already outside the class.
proof fn lemma_trim_identity(s: Seq<char>, p: spec_fn(char) -> bool)
    requires
        s.len() == 0 || (!p(s[0]) && !p(s[s.len() - 1])),
    ensures
        trim_edges(s, p) == s,
{
    lemma_trim_edges_at(s, p, 0, s.len() as int);
    assert(s.subrange(0, s.len() as int) =~= s);
}

/// Cleanup settles after one pass whenever the cleaned token's edges carry no
/// whitespace and no quotation mark; its edges carry no symbol punctuation
/// already. (It can fail to settle otherwise: a token whose trailing period
/// shields a quotation mark loses the period first and the quote only on a
/// second pass.)
pub proof fn lemma_clean_idempotent(s: Seq<char>)
    requires
        ({
            let r = clean_spec(s);
            r.len() == 0 || (!is_space_char(r[0]) && !is_space_char(r[r.len() - 1])
                && !is_quote_char(r[0]) && !is_quote_char(r[r.len() - 1]))
        }),
    ensures
        clean_spec(clean_spec(s)) == clean_spec(s),
{
    let r = clean_spec(s);
    let t2 = trim_edges(trim_edges(s, class_fn(CharClass::Space)), class_fn(CharClass::Quote));
    lemma_trim_edges_props(t2, class_fn(CharClass::Symbol));
    lemma_trim_identity(r, class_fn(CharClass::Space));
    lemma_trim_identity(r, class_fn(CharClass::Quote));
    lemma_trim_identity(r, class_fn(CharClass::Symbol));
}

// ---------------------------------------------------------------------------
// cleanup_word
// ---------------------------------------------------------------------------

/// Narrows `[lo0, hi0)` to the subrange left after trimming class `k` from
/// both edges.
fn trim_step(word: &str, k: CharClass, lo0: usize, hi0: usize) -> (r: (usize, usize))
    requires
        lo0 <= hi0 <= word@.len(),
    ensures
        lo0 <= r.0 <= r.1 <= hi0,
        word@.subrange(r.0 as int, r.1 as int) == trim_edges(
            word@.subrange(lo0 as int, hi0 as int),
            class_fn(k),
        ),
{
    let mut lo = lo0;
    let mut hi = hi0;
    while lo < hi && class_char(k, word.get_char(lo))
        invariant
            lo0 <= lo <= hi,
            hi == hi0 <= word@.len(),
            forall|j: int| lo0 <= j < lo ==> (class_fn(k))(#[trigger] word@[j]),
        decreases hi - lo,
    {
        lo += 1;
    }
    while hi > lo && class_char(k, word.get_char(hi - 1))
        invariant
            lo0 <= lo <= hi <= hi0 <= word@.len(),
            forall|j: int| lo0 <= j < lo ==> (class_fn(k))(#[trigger] word@[j]),
            lo < hi0 ==> !(class_fn(k))(word@[lo as int]),
            forall|j: int| hi <= j < hi0 ==> (class_fn(k))(#[trigger] word@[j]),
        decreases hi,
    {
        hi -= 1;
    }
    proof {
        let t0 = word@.subrange(lo0 as int, hi0 as int);
        let a = lo - lo0;
        let b = hi - lo0;
        assert(forall|j: int| 0 <= j < t0.len() ==> #[trigger] t0[j] == word@[lo0 + j]);
        lemma_trim_edges_at(t0, class_fn(k), a as int, b as int);
        assert(word@.subrange(lo as int, hi as int) =~= t0.subrange(a as int, b as int));
    }
    (lo, hi)
}

/// Strips, from both ends of the token, any run of whitespace, then of
/// quotation-mark variants, then of ASCII symbol punctuation — each class
/// trimmed independently and only from the outer edges.
pub fn cleanup_word(word: &str) -> (r: String)
    ensures
        r@ == clean_spec(word@),
{
    let n = word.unicode_len();
    let (lo1, hi1) = trim_step(word, CharClass::Space, 0, n);
    let (lo2, hi2) = trim_step(word, CharClass::Quote, lo1, hi1);
    let (lo3, hi3) = trim_step(word, CharClass::Symbol, lo2, hi2);
    proof {
        assert(word@.subrange(0, n as int) =~= word@);
    }
    word.substring_char(lo3, hi3).to_owned()
}

// ---------------------------------------------------------------------------
// word_qualifies
// ---------------------------------------------------------------------------

pub open spec fn all_numeric(s: Seq<char>) -> bool {
    forall|i: int| 0 <= i < s.len() ==> is_numeric_char(#[trigger] s[i])
}

pub open spec fn all_emoji(s: Seq<char>) -> bool {
    forall|i: int| 0 <= i < s.len() ==> is_emoji_char(#[trigger] s[i])
}

pub open spec fn all_control(s: Seq<char>) -> bool {
    forall|i: int| 0 <= i < s.len() ==> is_control_char(#[trigger] s[i])
}

pub open spec fn all_noise_symbols(s: Seq<char>) -> bool {
    forall|i: int| 0 <= i < s.len() ==> is_noise_symbol_char(#[trigger] s[i])
}

pub open spec fn starts_with(s: Seq<char>, p: Seq<char>) -> bool {
    p.len() <= s.len() && s.subrange(0, p.len() as int) == p
}

/// The literal prefixes that mark malformed-but-recognizable URLs.
pub open spec fn has_url_prefix(s: Seq<char>) -> bool {
    starts_with(s, "http://"@) || starts_with(s, "https://"@) || starts_with(s, "ftp://"@)
        || starts_with(s, "sftp://"@) || starts_with(s, "data:"@)
}

/// How many characters of the token are combining marks.
pub open spec fn zalgo_count(s: Seq<char>) -> int
    decreases s.len(),
{
    if s.len() == 0 {
        0
    } else {
        zalgo_count(s.drop_last()) + if is_zalgo_char(s.last()) {
            1int
        } else {
            0int
        }
    }
}

/// Combining marks make up more than three quarters of the token.
pub open spec fn is_zalgo_text(s: Seq<char>) -> bool {
    4 * zalgo_count(s) > 3 * s.len()
}

/// The rejection battery. A token is rejected when any predicate holds; all
/// are checked independently.
pub open spec fn is_rejected(s: Seq<char>) -> bool {
    ||| s.len() <= 1
    ||| s.len() > 0 && (s[0] == '@' || s[0] == '#')
    ||| is_parseable_url(s)
    ||| has_url_prefix(s)
    ||| all_numeric(s)
    ||| all_emoji(s)
    ||| all_control(s)
    ||| s.len() > 0 && s[0] == '&' && s[s.len() - 1] == ';'
    ||| all_noise_symbols(s)
    ||| is_zalgo_text(s)
    ||| s == "RT"@
}

/// What `word_qualifies` returns.
pub open spec fn qualifies_spec(s: Seq<char>) -> bool {
    !is_rejected(s)
}

fn all_chars_numeric(s: &str) -> (r: bool)
    ensures
        r == all_numeric(s@),
{
    let n = s.unicode_len();
    let mut i: usize = 0;
    while i < n
        invariant
            i <= n == s@.len(),
            forall|j: int| 0 <= j < i ==> is_numeric_char(#[trigger] s@[j]),
        decreases n - i,
    {
        if !char_is_numeric(s.get_char(i)) {
            return false;
        }
        i += 1;
    }
    true
}

fn all_chars_emoji(s: &str) -> (r: bool)
    ensures
        r == all_emoji(s@),
{
    let n = s.unicode_len();
    let mut i: usize = 0;
    while i < n
        invariant
            i <= n == s@.len(),
            forall|j: int| 0 <= j < i ==> is_emoji_char(#[trigger] s@[j]),
        decreases n - i,
    {
        let u = s.get_char(i) as u32;
        if !((0x1F3FB <= u && u <= 0x1F3FF) || (0x1F600 <= u && u <= 0x1F64F)) {
            return false;
        }
        i += 1;
    }
    true
}

fn all_chars_control(s: &str) -> (r: bool)
    ensures
        r == all_control(s@),
{
    let n = s.unicode_len();
    let mut i: usize = 0;
    while i < n
        invariant
            i <= n == s@.len(),
            forall|j: int| 0 <= j < i ==> is_control_char(#[trigger] s@[j]),
        decreases n - i,
    {
        let u = s.get_char(i) as u32;
        if !(u <= 0x1F || u == 0x7F) {
            return false;
        }
        i += 1;
    }
    true
}

fn all_chars_noise_symbols(s: &str) -> (r: bool)
    ensures
        r == all_noise_symbols(s@),
{
    let n = s.unicode_len();
    let mut i: usize = 0;
    while i < n
        invariant
            i <= n == s@.len(),
            forall|j: int| 0 <= j < i ==> is_noise_symbol_char(#[trigger] s@[j]),
        decreases n - i,
    {
        let c = s.get_char(i);
        if !(c == '!' || c == '@' || c == '#' || c == '$' || c == '%' || c == '^' || c == '&' || c
            == '*' || c == '(' || c == ')' || c == '_' || c == '-' || c == '+' || c == '=' || c
            == '<' || c == ',' || c == '>' || c == '.' || c == '?' || c == '/' || c == '\'' || c
            == '"' || c == '{' || c == '[' || c == '}' || c == ']' || c == '\\' || c == '|' || c
            == '`' || c == '~' || c == '\t' || c == '\r' || c == '\n') {
            return false;
        }
        i += 1;
    }
    true
}

fn has_prefix(s: &str, p: &str) -> (r: bool)
    ensures
        r == starts_with(s@, p@),
{
    let pn = p.unicode_len();
    let n = s.unicode_len();
    if pn > n {
        return false;
    }
    let mut i: usize = 0;
    while i < pn
        invariant
            i <= pn == p@.len() <= n == s@.len(),
            forall|j: int| 0 <= j < i ==> s@[j] == p@[j],
        decreases pn - i,
    {
        if s.get_char(i) != p.get_char(i) {
            proof {
                assert(s@.subrange(0, p@.len() as int)[i as int] != p@[i as int]);
            }
            return false;
        }
        i += 1;
    }
    proof {
        assert(s@.subrange(0, p@.len() as int) =~= p@);
    }
    true
}

fn count_zalgo_chars(s: &str) -> (r: usize)
    ensures
        r == zalgo_count(s@),
{
    let n = s.unicode_len();
    let mut count: usize = 0;
    let mut i: usize = 0;
    while i < n
        invariant
            i <= n == s@.len(),
            count == zalgo_count(s@.take(i as int)),
            count <= i,
        decreases n - i,
    {
        proof {
            assert(s@.take(i + 1).drop_last() =~= s@.take(i as int));
            assert(s@.take(i + 1).last() == s@[i as int]);
        }
        if char_is_zalgo(s.get_char(i)) {
            count += 1;
        }
        i += 1;
    }
    proof {
        assert(s@.take(n as int) =~= s@);
    }
    count
}

/// Decides whether a cleaned token is real text worth counting: it is
/// rejected when it is empty or a single character, a mention, a hashtag, a
/// URL, all numeric, all emoji, all control characters, an HTML entity
/// escape, all symbols, zalgo text, or the retweet marker.
pub fn word_qualifies(word: &String) -> (r: bool)
    ensures
        r == qualifies_spec(word@),
{
    let s = word.as_str();
    let n = s.unicode_len();
    if n <= 1 {
        return false;
    }
    let first = s.get_char(0);
    if first == '@' || first == '#' {
        return false;
    }
    if url_parses(s) {
        return false;
    }
    if has_prefix(s, "http://") || has_prefix(s, "https://") || has_prefix(s, "ftp://")
        || has_prefix(s, "sftp://") || has_prefix(s, "data:") {
        return false;
    }
    if all_chars_numeric(s) {
        return false;
    }
    if all_chars_emoji(s) {
        return false;
    }
    if all_chars_control(s) {
        return false;
    }
    if first == '&' && s.get_char(n - 1) == ';' {
        return false;
    }
    if all_chars_noise_symbols(s) {
        return false;
    }
    let zc = count_zalgo_chars(s);
    if 4 * (zc as u128) > 3 * (n as u128) {
        return false;
    }
    if n == 2 && first == 'R' && s.get_char(1) == 'T' {
        proof {
            reveal_strlit("RT");
            assert(s@ =~= "RT"@);
        }
        return false;
    }
    proof {
        reveal_strlit("RT");
        if s@ == "RT"@ {
            assert(s@[0] == 'R' && s@[1] == 'T');
        }
        assert(!is_zalgo_text(s@));
    }
    true
}

} // verus!
