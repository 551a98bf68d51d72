//! Text sanitation for submitted answers: surrounding whitespace is
//! dropped and quote and backslash characters are removed before a row
//! is stored.

use vstd::prelude::*;

verus! {

/// The characters the trim step removes: the Unicode White_Space set,
/// the same set `str::trim` strips.
pub open spec fn is_trimmed_ws(c: char) -> bool {
    let n = c as u32;
    ||| (0x9 <= n && n <= 0xD)
    ||| n == 0x20
    ||| n == 0x85
    ||| n == 0xA0
    ||| n == 0x1680
    ||| (0x2000 <= n && n <= 0x200A)
    ||| n == 0x2028
    ||| n == 0x2029
    ||| n == 0x202F
    ||| n == 0x205F
    ||| n == 0x3000
}

/// Characters that survive escaping: everything but quotes and backslash.
pub open spec fn is_kept(c: char) -> bool {
    c != '\'' && c != '"' && c != '\\'
}

/// Drops leading whitespace.
pub open spec fn drop_leading_ws(s: Seq<char>) -> Seq<char>
    decreases s.len(),
{
    if s.len() > 0 && is_trimmed_ws(s[0]) {
        drop_leading_ws(s.drop_first())
    } else {
        s
    }
}

/// Drops trailing whitespace.
pub open spec fn drop_trailing_ws(s: Seq<char>) -> Seq<char>
    decreases s.len(),
{
    if s.len() > 0 && is_trimmed_ws(s.last()) {
        drop_trailing_ws(s.drop_last())
    } else {
        s
    }
}

/// The whitespace-trimmed form of a character sequence.
pub open spec fn spec_trim(s: Seq<char>) -> Seq<char> {
    drop_trailing_ws(drop_leading_ws(s))
}

/// What [`escape`] returns: the trimmed sequence with quotes and
/// backslashes filtered out.
pub open spec fn spec_escape(s: Seq<char>) -> Seq<char> {
    spec_trim(s).filter(|c: char| is_kept(c))
}

/// If everything before `lo` is whitespace and `lo` itself is not (or is
/// the end), dropping leading whitespace lands exactly on `lo`.
proof fn lemma_drop_leading_at(s: Seq<char>, lo: int)
    requires
        0 <= lo <= s.len(),
        forall|j: int| 0 <= j < lo ==> is_trimmed_ws(#[trigger] s[j]),
        lo == s.len() || !is_trimmed_ws(s[lo as int]),
    ensures
        drop_leading_ws(s) =~= s.subrange(lo, s.len() as int),
    decreases lo,
{
    if lo == 0 {
        if s.len() > 0 && is_trimmed_ws(s[0]) {
            assert(false);
        }
        assert(drop_leading_ws(s) =~= s.subrange(0, s.len() as int));
    } else {
        assert(is_trimmed_ws(s[0]));
        lemma_drop_leading_at(s.drop_first(), lo - 1);
        assert(s.drop_first().subrange(lo - 1, s.drop_first().len() as int) =~= s.subrange(
            lo,
            s.len() as int,
        ));
    }
}

/// If everything from `hi` on is whitespace and `hi - 1` is not (or `hi`
/// is the start), dropping trailing whitespace lands exactly on `hi`.
proof fn lemma_drop_trailing_at(s: Seq<char>, hi: int)
    requires
        0 <= hi <= s.len(),
        forall|j: int| hi <= j < s.len() ==> is_trimmed_ws(#[trigger] s[j]),
        hi == 0 || !is_trimmed_ws(s[hi - 1]),
    ensures
        drop_trailing_ws(s) =~= s.subrange(0, hi),
    decreases s.len() - hi,
{
    if hi == s.len() {
        if s.len() > 0 && is_trimmed_ws(s.last()) {
            assert(false);
        }
        assert(drop_trailing_ws(s) =~= s.subrange(0, hi));
    } else {
        assert(is_trimmed_ws(s.last()));
        lemma_drop_trailing_at(s.drop_last(), hi);
        assert(s.drop_last().subrange(0, hi) =~= s.subrange(0, hi));
    }
}

/// Relies on `String::push`: appends the one character to the string.
#[verifier::external_body]
fn push_char(s: &mut String, c: char)
    ensures
        final(s)@ == old(s)@ + seq![c],
{
    s.push(c)
}

/// Strips surrounding whitespace, then removes single quotes, double
/// quotes and backslashes from what remains.
pub fn escape(s: &str) -> (r: String)
    ensures
        r@ == spec_escape(s@),
{
    let n = s.unicode_len();
    let mut lo: usize = 0;
    while lo < n && is_ws_char(s.get_char(lo))
        invariant
            0 <= lo <= n,
            n == s@.len(),
            forall|j: int| 0 <= j < lo ==> is_trimmed_ws(#[trigger] s@[j]),
        decreases n - lo,
    {
        lo = lo + 1;
    }
    let mut hi: usize = n;
    while hi > lo && is_ws_char(s.get_char(hi - 1))
        invariant
            lo <= hi <= n,
            n == s@.len(),
            forall|j: int| 0 <= j < lo ==> is_trimmed_ws(#[trigger] s@[j]),
            lo == n || !is_trimmed_ws(s@[lo as int]),
            forall|j: int| hi <= j < n ==> is_trimmed_ws(#[trigger] s@[j]),
        decreases hi,
    {
        hi = hi - 1;
    }
    proof {
        lemma_drop_leading_at(s@, lo as int);
        let t = s@.subrange(lo as int, n as int);
        if lo < hi {
            lemma_drop_trailing_at(t, hi - lo);
        } else {
            lemma_drop_trailing_at(t, 0);
        }
        assert(spec_trim(s@) =~= s@.subrange(lo as int, hi as int));
    }
    let ghost t = s@.subrange(lo as int, hi as int);
    let mut out = String::new();
    let mut i: usize = lo;
    while i < hi
        invariant
            lo <= i <= hi <= n,
            n == s@.len(),
            t == s@.subrange(lo as int, hi as int),
            out@ == s@.subrange(lo as int, i as int).filter(|c: char| is_kept(c)),
        decreases hi - i,
    {
        let c = s.get_char(i);
        let ghost pre = s@.subrange(lo as int, i as int);
        proof {
            assert(s@.subrange(lo as int, i + 1) =~= pre.push(s@[i as int]));
            pre.lemma_filter_push(s@[i as int], |c: char| is_kept(c));
        }
        if c != '\'' && c != '"' && c != '\\' {
            push_char(&mut out, c);
        }
        i = i + 1;
    }
    out
}

/// Run-time test for the trimmed whitespace set.
fn is_ws_char(c: char) -> (b: bool)
    ensures
        b == is_trimmed_ws(c),
{
    let n = c as u32;
    (0x9 <= n && n <= 0xD) || n == 0x20 || n == 0x85 || n == 0xA0 || n == 0x1680 || (0x2000 <= n
        && n <= 0x200A) || n == 0x2028 || n == 0x2029 || n == 0x202F || n == 0x205F || n == 0x3000
}

} // verus!
