//! Cutting a buffer into tokens: lines, words, or characters.
//!
//! A token is a sub-slice of the buffer; the tokens of a buffer follow one
//! another and cover it. Text is taken as UTF-8 bytes.
use vstd::prelude::*;
use vstd::slice::slice_subrange;

verus! {

/// What a token is.
#[derive(Clone, Copy, Debug, PartialEq, Eq, Structural)]
pub enum Granularity {
    /// A line with its terminator: `\n`, `\r\n`, or a `\r` that no `\n` follows.
    Lines,
    /// A run of whitespace, or a run of anything else. Whitespace is what
    /// Unicode calls so, read from the UTF-8 bytes.
    Words,
    /// One UTF-8 encoded character; in bytes that are no UTF-8, a byte with
    /// the continuation bytes that follow it.
    Chars,
}

/// ASCII whitespace: space, tab, line feed, vertical tab, form feed, carriage return.
pub open spec fn is_space(c: u8) -> bool {
    c == 0x20 || (0x09 <= c && c <= 0x0d)
}

/// A byte that continues a UTF-8 encoded character.
pub open spec fn is_continuation(c: u8) -> bool {
    0x80 <= c && c < 0xc0
}

/// The character that starts at `p` is whitespace: one of U+0009 to U+000D,
/// U+0020, U+0085, U+00A0, U+1680, U+2000 to U+200A, U+2028, U+2029, U+202F,
/// U+205F, U+3000, in UTF-8.
pub open spec fn space_at(s: Seq<u8>, p: int) -> bool {
    if p < 0 || p >= s.len() {
        false
    } else if s[p] < 0x80 {
        is_space(s[p])
    } else if p + 1 < s.len() && s[p] == 0xc2 {
        s[p + 1] == 0x85 || s[p + 1] == 0xa0
    } else if p + 2 < s.len() && s[p] == 0xe1 {
        s[p + 1] == 0x9a && s[p + 2] == 0x80
    } else if p + 2 < s.len() && s[p] == 0xe2 {
        (s[p + 1] == 0x80 && ((0x80 <= s[p + 2] && s[p + 2] <= 0x8a) || s[p + 2] == 0xa8 || s[p
            + 2] == 0xa9 || s[p + 2] == 0xaf)) || (s[p + 1] == 0x81 && s[p + 2] == 0x9f)
    } else if p + 2 < s.len() && s[p] == 0xe3 {
        s[p + 1] == 0x80 && s[p + 2] == 0x80
    } else {
        false
    }
}

/// Where the character that ends before `p` starts: at most three
/// continuation bytes back from the byte before `p`.
pub open spec fn start_before(s: Seq<u8>, p: int) -> int {
    if p >= 2 && is_continuation(s[p - 1]) {
        if p >= 3 && is_continuation(s[p - 2]) {
            if p >= 4 && is_continuation(s[p - 3]) {
                p - 4
            } else {
                p - 3
            }
        } else {
            p - 2
        }
    } else {
        p - 1
    }
}

/// A line ends with the byte at `i`.
pub open spec fn ends_line(s: Seq<u8>, i: int) -> bool {
    s[i] == 0x0a || (s[i] == 0x0d && !(i + 1 < s.len() && s[i + 1] == 0x0a))
}

/// A token ends before position `p` of `s`, where `0 < p < s.len()`.
pub open spec fn cuts(g: Granularity, s: Seq<u8>, p: int) -> bool {
    match g {
        Granularity::Lines => ends_line(s, p - 1),
        Granularity::Words => !is_continuation(s[p]) && space_at(s, start_before(s, p))
            != space_at(s, p),
        Granularity::Chars => !is_continuation(s[p]),
    }
}

/// What each token holds.
pub open spec fn contents(tokens: Seq<&[u8]>) -> Seq<Seq<u8>> {
    Seq::new(tokens.len(), |i: int| tokens[i]@)
}

/// The position in the buffer at which token `k` starts: the length of all tokens before it.
pub open spec fn offset_of(tokens: Seq<Seq<u8>>, k: int) -> int
    decreases k,
{
    if k <= 0 {
        0
    } else {
        offset_of(tokens, k - 1) + tokens[k - 1].len()
    }
}

/// `tokens` are the tokens of `s`: non-empty, one after the other over the
/// whole of `s`, and ending exactly where the granularity cuts.
#[verifier::opaque]
pub open spec fn tokenizes(tokens: Seq<Seq<u8>>, s: Seq<u8>, g: Granularity) -> bool {
    &&& offset_of(tokens, tokens.len() as int) == s.len()
    &&& forall|k: int|
        0 <= k < tokens.len() ==> (#[trigger] tokens[k]).len() > 0 && tokens[k] == s.subrange(
            offset_of(tokens, k),
            offset_of(tokens, k) + tokens[k].len(),
        )
    &&& forall|k: int| 0 < k < tokens.len() ==> cuts(g, s, #[trigger] offset_of(tokens, k))
    &&& forall|k: int, p: int|
        #![trigger offset_of(tokens, k), cuts(g, s, p)]
        0 <= k < tokens.len() && offset_of(tokens, k) < p < offset_of(tokens, k) + tokens[k].len()
            ==> !cuts(g, s, p)
}

/// Offsets of earlier tokens do not change when a token is appended.
pub proof fn lemma_offset_push(tokens: Seq<Seq<u8>>, t: Seq<u8>, k: int)
    requires
        0 <= k <= tokens.len(),
    ensures
        offset_of(tokens.push(t), k) == offset_of(tokens, k),
    decreases k,
{
    if k > 0 {
        lemma_offset_push(tokens, t, k - 1);
        assert(tokens.push(t)[k - 1] == tokens[k - 1]);
    }
}

/// An appended token ends where the tokens before it ended, plus its length.
pub proof fn lemma_offset_push_end(tokens: Seq<Seq<u8>>, t: Seq<u8>)
    ensures
        offset_of(tokens.push(t), tokens.len() as int + 1) == offset_of(
            tokens,
            tokens.len() as int,
        ) + t.len(),
{
    lemma_offset_push(tokens, t, tokens.len() as int);
    assert(tokens.push(t)[tokens.len() as int] == t);
}

/// Offsets grow with the index.
pub proof fn lemma_offset_monotone(tokens: Seq<Seq<u8>>, j: int, k: int)
    requires
        0 <= j <= k <= tokens.len(),
    ensures
        offset_of(tokens, j) <= offset_of(tokens, k),
    decreases k - j,
{
    if j < k {
        lemma_offset_monotone(tokens, j, k - 1);
    }
}

/// Non-empty tokens are no more than the bytes they cover.
pub proof fn lemma_token_count(tokens: Seq<Seq<u8>>, k: int)
    requires
        0 <= k <= tokens.len(),
        forall|i: int| 0 <= i < tokens.len() ==> (#[trigger] tokens[i]).len() > 0,
    ensures
        k <= offset_of(tokens, k),
    decreases k,
{
    if k > 0 {
        lemma_token_count(tokens, k - 1);
    }
}

/// What being a tokenization says of token `k`.
pub proof fn lemma_token_facts(t: Seq<Seq<u8>>, s: Seq<u8>, g: Granularity, k: int)
    requires
        tokenizes(t, s, g),
        0 <= k < t.len(),
    ensures
        t[k].len() > 0,
        0 <= offset_of(t, k),
        t[k] == s.subrange(offset_of(t, k), offset_of(t, k + 1)),
        offset_of(t, k + 1) == offset_of(t, k) + t[k].len(),
        offset_of(t, k + 1) <= s.len(),
        offset_of(t, t.len() as int) == s.len(),
        k + 1 < t.len() ==> cuts(g, s, offset_of(t, k + 1)),
        forall|p: int| offset_of(t, k) < p < offset_of(t, k + 1) ==> !#[trigger] cuts(g, s, p),
{
    reveal(tokenizes);
    lemma_offset_monotone(t, k + 1, t.len() as int);
    lemma_offset_monotone(t, 0, k);
    assert forall|p: int| offset_of(t, k) < p < offset_of(t, k + 1) implies !#[trigger] cuts(
        g,
        s,
        p,
    ) by {
        let o = offset_of(t, k);
        assert(o < p < o + t[k].len());
    }
}

/// Offsets grow strictly.
pub proof fn lemma_offset_strict(t: Seq<Seq<u8>>, s: Seq<u8>, g: Granularity, j: int, k: int)
    requires
        tokenizes(t, s, g),
        0 <= j < k <= t.len(),
    ensures
        offset_of(t, j) < offset_of(t, k),
    decreases k - j,
{
    lemma_token_facts(t, s, g, k - 1);
    if j + 1 < k {
        lemma_offset_strict(t, s, g, j, k - 1);
    }
}

/// Two tokenizations of one buffer agree on their first `k` tokens.
proof fn lemma_tokens_agree(t1: Seq<Seq<u8>>, t2: Seq<Seq<u8>>, s: Seq<u8>, g: Granularity, k: int)
    requires
        tokenizes(t1, s, g),
        tokenizes(t2, s, g),
        0 <= k <= t1.len(),
        k <= t2.len(),
    ensures
        offset_of(t1, k) == offset_of(t2, k),
        forall|i: int| 0 <= i < k ==> t1[i] == t2[i],
    decreases k,
{
    if k > 0 {
        lemma_tokens_agree(t1, t2, s, g, k - 1);
        lemma_token_facts(t1, s, g, k - 1);
        lemma_token_facts(t2, s, g, k - 1);
        let e1 = offset_of(t1, k);
        let e2 = offset_of(t2, k);
        if e1 < e2 {
            assert(!cuts(g, s, e1));
            assert(false);
        }
        if e2 < e1 {
            assert(!cuts(g, s, e2));
            assert(false);
        }
    }
}

/// A buffer has one tokenization only.
pub proof fn lemma_tokens_unique(t1: Seq<Seq<u8>>, t2: Seq<Seq<u8>>, s: Seq<u8>, g: Granularity)
    requires
        tokenizes(t1, s, g),
        tokenizes(t2, s, g),
    ensures
        t1 == t2,
{
    let k = if t1.len() <= t2.len() { t1.len() as int } else { t2.len() as int };
    lemma_tokens_agree(t1, t2, s, g, k);
    if t1.len() < t2.len() {
        lemma_offset_strict(t2, s, g, k, t2.len() as int);
        if k > 0 {
            lemma_token_facts(t1, s, g, k - 1);
        } else {
            reveal(tokenizes);
        }
        lemma_token_facts(t2, s, g, t2.len() - 1);
    }
    if t2.len() < t1.len() {
        lemma_offset_strict(t1, s, g, k, t1.len() as int);
        if k > 0 {
            lemma_token_facts(t2, s, g, k - 1);
        } else {
            reveal(tokenizes);
        }
        lemma_token_facts(t1, s, g, t1.len() - 1);
    }
    assert(t1 =~= t2);
}

/// The tokens of `s`.
pub open spec fn tokens_of(s: Seq<u8>, g: Granularity) -> Seq<Seq<u8>> {
    choose|t: Seq<Seq<u8>>| tokenizes(t, s, g)
}

/// Whether the byte is ASCII whitespace.
pub fn byte_is_space(c: u8) -> (r: bool)
    ensures
        r == is_space(c),
{
    c == 0x20 || (0x09 <= c && c <= 0x0d)
}

/// Whether the byte continues a UTF-8 encoded character.
pub fn byte_continues(c: u8) -> (r: bool)
    ensures
        r == is_continuation(c),
{
    0x80 <= c && c < 0xc0
}

/// Whether the character that starts at `p` is whitespace.
pub fn is_space_at(s: &[u8], p: usize) -> (r: bool)
    ensures
        r == space_at(s@, p as int),
{
    let n: usize = s.len();
    if p >= n {
        return false;
    }
    let c: u8 = s[p];
    if c < 0x80 {
        byte_is_space(c)
    } else if n - p > 1 && c == 0xc2 {
        s[p + 1] == 0x85 || s[p + 1] == 0xa0
    } else if n - p > 2 && c == 0xe1 {
        s[p + 1] == 0x9a && s[p + 2] == 0x80
    } else if n - p > 2 && c == 0xe2 {
        let d: u8 = s[p + 1];
        let e: u8 = s[p + 2];
        (d == 0x80 && ((0x80 <= e && e <= 0x8a) || e == 0xa8 || e == 0xa9 || e == 0xaf)) || (d
            == 0x81 && e == 0x9f)
    } else if n - p > 2 && c == 0xe3 {
        s[p + 1] == 0x80 && s[p + 2] == 0x80
    } else {
        false
    }
}

/// Where the character that ends before `p` starts.
pub fn char_start_before(s: &[u8], p: usize) -> (r: usize)
    requires
        0 < p <= s@.len(),
    ensures
        r == start_before(s@, p as int),
        r < p,
{
    if p >= 2 && byte_continues(s[p - 1]) {
        if p >= 3 && byte_continues(s[p - 2]) {
            if p >= 4 && byte_continues(s[p - 3]) {
                p - 4
            } else {
                p - 3
            }
        } else {
            p - 2
        }
    } else {
        p - 1
    }
}

/// Whether a token ends before position `p`.
pub fn cut_at(g: Granularity, s: &[u8], p: usize) -> (r: bool)
    requires
        0 < p < s@.len(),
    ensures
        r == cuts(g, s@, p as int),
{
    match g {
        Granularity::Lines => {
            let c: u8 = s[p - 1];
            c == 0x0a || (c == 0x0d && s[p] != 0x0a)
        },
        Granularity::Words => !byte_continues(s[p]) && is_space_at(s, char_start_before(s, p))
            != is_space_at(s, p),
        Granularity::Chars => {
            let c: u8 = s[p];
            !(0x80 <= c && c < 0xc0)
        },
    }
}

/// Cuts `s` into its tokens.
pub fn tokenize<'a>(s: &'a [u8], g: Granularity) -> (tokens: Vec<&'a [u8]>)
    ensures
        tokenizes(contents(tokens@), s@, g),
        contents(tokens@) == tokens_of(s@, g),
        tokens@.len() <= s@.len(),
{
    let n: usize = s.len();
    let mut tokens: Vec<&'a [u8]> = Vec::new();
    let mut start: usize = 0;
    while start < n
        invariant
            n == s@.len(),
            start <= n,
            offset_of(contents(tokens@), tokens@.len() as int) == start,
            tokens@.len() > 0 && start < n ==> cuts(g, s@, start as int),
            forall|k: int|
                0 <= k < tokens@.len() ==> (#[trigger] contents(tokens@)[k]).len() > 0 && contents(
                    tokens@,
                )[k] == s@.subrange(
                    offset_of(contents(tokens@), k),
                    offset_of(contents(tokens@), k) + contents(tokens@)[k].len(),
                ),
            forall|k: int|
                0 < k < tokens@.len() ==> cuts(g, s@, #[trigger] offset_of(contents(tokens@), k)),
            forall|k: int, p: int|
                #![trigger offset_of(contents(tokens@), k), cuts(g, s@, p)]
                0 <= k < tokens@.len() && offset_of(contents(tokens@), k) < p < offset_of(
                    contents(tokens@),
                    k,
                ) + contents(tokens@)[k].len() ==> !cuts(g, s@, p),
        decreases n - start,
    {
        let mut p: usize = start + 1;
        while p < n && !cut_at(g, s, p)
            invariant
                n == s@.len(),
                start < p <= n,
                forall|q: int| start < q < p ==> !#[trigger] cuts(g, s@, q),
            decreases n - p,
        {
            p = p + 1;
        }
        let token = slice_subrange(s, start, p);
        proof {
            let before = contents(tokens@);
            let after = before.push(token@);
            assert(contents(tokens@.push(token)) =~= after);
            assert forall|k: int| 0 <= k <= before.len() implies offset_of(after, k) == offset_of(
                before,
                k,
            ) by {
                lemma_offset_push(before, token@, k);
            }
            lemma_offset_push_end(before, token@);
            assert forall|k: int| 0 <= k < after.len() implies (#[trigger] after[k]).len() > 0
                && after[k] == s@.subrange(offset_of(after, k), offset_of(after, k) + after[k].len()) by {
                if k < before.len() {
                    assert(after[k] == before[k]);
                }
            }
            assert forall|k: int, q: int|
                #![trigger offset_of(after, k), cuts(g, s@, q)]
                0 <= k < after.len() && offset_of(after, k) < q < offset_of(after, k)
                    + after[k].len() implies !cuts(g, s@, q) by {
                if k < before.len() {
                    assert(after[k] == before[k]);
                    assert(offset_of(after, k) == offset_of(before, k));
                }
            }
            assert forall|k: int| 0 < k < after.len() implies cuts(
                g,
                s@,
                #[trigger] offset_of(after, k),
            ) by {
                assert(offset_of(after, k) == offset_of(before, k));
            }
        }
        tokens.push(token);
        start = p;
    }
    proof {
        lemma_token_count(contents(tokens@), tokens@.len() as int);
        assert(tokenizes(contents(tokens@), s@, g)) by {
            reveal(tokenizes);
        }
        lemma_tokens_unique(contents(tokens@), tokens_of(s@, g), s@, g);
    }
    tokens
}

/// The lines of `s`, each with its terminator.
pub fn tokenize_lines<'a>(s: &'a [u8]) -> (tokens: Vec<&'a [u8]>)
    ensures
        tokenizes(contents(tokens@), s@, Granularity::Lines),
        contents(tokens@) == tokens_of(s@, Granularity::Lines),
{
    tokenize(s, Granularity::Lines)
}

/// The words of `s` and the whitespace between them.
pub fn tokenize_words<'a>(s: &'a [u8]) -> (tokens: Vec<&'a [u8]>)
    ensures
        tokenizes(contents(tokens@), s@, Granularity::Words),
        contents(tokens@) == tokens_of(s@, Granularity::Words),
{
    tokenize(s, Granularity::Words)
}

/// The characters of `s`.
pub fn tokenize_chars<'a>(s: &'a [u8]) -> (tokens: Vec<&'a [u8]>)
    ensures
        tokenizes(contents(tokens@), s@, Granularity::Chars),
        contents(tokens@) == tokens_of(s@, Granularity::Chars),
{
    tokenize(s, Granularity::Chars)
}

} // verus!
