//! Wildcard byte patterns: the textual grammar and the scan over a buffer.
use vstd::prelude::*;

verus! {

/// One position of a pattern: an exact byte, or any byte.
#[derive(Clone, Copy, Debug, PartialEq, Eq, Structural)]
pub enum PatternElement {
    Byte(u8),
    Wildcard,
}

/// Why a pattern string was refused.
#[derive(Clone, Copy, Debug, PartialEq, Eq, Structural)]
pub enum PatternError {
    /// A token is neither `?` nor exactly two hexadecimal digits.
    InvalidToken,
    /// The string holds no token at all.
    Empty,
}

/// The characters with the Unicode `White_Space` property, which separate
/// tokens as in `str::split_whitespace`.
pub open spec fn white_space(c: char) -> bool {
    let u = c as u32;
    ||| (0x09 <= u && u <= 0x0D)
    ||| u == 0x20
    ||| u == 0x85
    ||| u == 0xA0
    ||| u == 0x1680
    ||| (0x2000 <= u && u <= 0x200A)
    ||| u == 0x2028
    ||| u == 0x2029
    ||| u == 0x202F
    ||| u == 0x205F
    ||| u == 0x3000
}

fn is_separator(c: char) -> (r: bool)
    ensures
        r == white_space(c),
{
    let u = c as u32;
    (0x09 <= u && u <= 0x0D) || u == 0x20 || u == 0x85 || u == 0xA0 || u == 0x1680 || (0x2000 <= u && u
        <= 0x200A) || u == 0x2028 || u == 0x2029 || u == 0x202F || u == 0x205F || u == 0x3000
}

/// The value of a hexadecimal digit of either case, if `c` is one.
pub open spec fn hex_value(c: char) -> Option<u8> {
    if '0' <= c && c <= '9' {
        Some((c as u32 - '0' as u32) as u8)
    } else if 'a' <= c && c <= 'f' {
        Some((c as u32 - 'a' as u32 + 10) as u8)
    } else if 'A' <= c && c <= 'F' {
        Some((c as u32 - 'A' as u32 + 10) as u8)
    } else {
        None
    }
}

/// The element a token stands for, if the token is valid: `?`, or exactly two
/// hexadecimal digits.
pub open spec fn token_element(t: Seq<char>) -> Option<PatternElement> {
    if t == seq!['?'] {
        Some(PatternElement::Wildcard)
    } else if t.len() == 2 && hex_value(t[0]) is Some && hex_value(t[1]) is Some {
        Some(PatternElement::Byte((hex_value(t[0])->Some_0 * 16 + hex_value(t[1])->Some_0) as u8))
    } else {
        None
    }
}

/// Splitting a prefix of the text: the tokens already closed by a separator,
/// and the token still being read.
pub open spec fn split_state(s: Seq<char>) -> (Seq<Seq<char>>, Seq<char>)
    decreases s.len(),
{
    if s.len() == 0 {
        (seq![], seq![])
    } else {
        let (done, cur) = split_state(s.drop_last());
        if white_space(s.last()) {
            if cur.len() > 0 {
                (done.push(cur), seq![])
            } else {
                (done, seq![])
            }
        } else {
            (done, cur.push(s.last()))
        }
    }
}

/// The maximal runs of non-separator characters, in order.
pub open spec fn tokens(s: Seq<char>) -> Seq<Seq<char>> {
    let (done, cur) = split_state(s);
    if cur.len() > 0 {
        done.push(cur)
    } else {
        done
    }
}

/// The outcome of parsing a pattern string.
pub open spec fn parsed(s: Seq<char>) -> Result<Seq<PatternElement>, PatternError> {
    let ts = tokens(s);
    if exists|k: int| 0 <= k < ts.len() && token_element(#[trigger] ts[k]) is None {
        Err(PatternError::InvalidToken)
    } else if ts.len() == 0 {
        Err(PatternError::Empty)
    } else {
        Ok(ts.map_values(|t: Seq<char>| token_element(t)->Some_0))
    }
}

fn hex_digit(c: char) -> (r: Option<u8>)
    ensures
        r == hex_value(c),
{
    if '0' <= c && c <= '9' {
        Some((c as u32 - '0' as u32) as u8)
    } else if 'a' <= c && c <= 'f' {
        Some((c as u32 - 'a' as u32 + 10) as u8)
    } else if 'A' <= c && c <= 'F' {
        Some((c as u32 - 'A' as u32 + 10) as u8)
    } else {
        None
    }
}

fn token_to_element(t: &Vec<char>) -> (r: Option<PatternElement>)
    ensures
        r == token_element(t@),
{
    if t.len() == 1 && t[0] == '?' {
        assert(t@ =~= seq!['?']);
        return Some(PatternElement::Wildcard);
    }
    assert(t@ != seq!['?']) by {
        if t@ == seq!['?'] {
            assert(t@.len() == 1 && t@[0] == '?');
        }
    }
    if t.len() == 2 {
        match (hex_digit(t[0]), hex_digit(t[1])) {
            (Some(hi), Some(lo)) => Some(PatternElement::Byte(hi * 16 + lo)),
            _ => None,
        }
    } else {
        None
    }
}

/// Parses a pattern such as `"48 8B ? ? 89 7C"`: tokens separated by
/// whitespace, each `?` or exactly two hexadecimal digits of either case.
pub fn parse_pattern(pattern: &str) -> (r: Result<Vec<PatternElement>, PatternError>)
    ensures
        match r {
            Ok(v) => parsed(pattern@) == Ok::<Seq<PatternElement>, PatternError>(v@),
            Err(e) => parsed(pattern@) == Err::<Seq<PatternElement>, PatternError>(e),
        },
{
    let n = pattern.unicode_len();
    let mut elems: Vec<PatternElement> = Vec::new();
    let mut cur: Vec<char> = Vec::new();
    let mut bad = false;
    let ghost mut done: Seq<Seq<char>> = seq![];
    let mut i: usize = 0;
    while i < n
        invariant
            n == pattern@.len(),
            i <= n,
            split_state(pattern@.subrange(0, i as int)) == (done, cur@),
            bad == (exists|k: int| 0 <= k < done.len() && token_element(#[trigger] done[k]) is None),
            !bad ==> elems@ == done.map_values(|t: Seq<char>| token_element(t)->Some_0),
        decreases n - i,
    {
        let c = pattern.get_char(i);
        let ghost prefix = pattern@.subrange(0, i as int);
        assert(pattern@.subrange(0, i + 1).drop_last() =~= prefix);
        if is_separator(c) {
            if cur.len() > 0 {
                match token_to_element(&cur) {
                    Some(e) => {
                        elems.push(e);
                    },
                    None => {
                        bad = true;
                    },
                }
                proof {
                    let old_done = done;
                    done = done.push(cur@);
                    assert(done[done.len() - 1] == cur@);
                    assert forall|k: int| 0 <= k < old_done.len() implies done[k] == old_done[k] by {}
                    if !bad {
                        assert(elems@ =~= done.map_values(|t: Seq<char>| token_element(t)->Some_0));
                    }
                }
                cur = Vec::new();
            }
        } else {
            cur.push(c);
        }
        i = i + 1;
    }
    assert(pattern@.subrange(0, n as int) =~= pattern@);
    let ghost ts = tokens(pattern@);
    if cur.len() > 0 {
        match token_to_element(&cur) {
            Some(e) => {
                elems.push(e);
            },
            None => {
                bad = true;
            },
        }
        proof {
            let old_done = done;
            done = done.push(cur@);
            assert(done[done.len() - 1] == cur@);
            assert forall|k: int| 0 <= k < old_done.len() implies done[k] == old_done[k] by {}
            if !bad {
                assert(elems@ =~= done.map_values(|t: Seq<char>| token_element(t)->Some_0));
            }
        }
    }
    assert(done == ts);
    if bad {
        Err(PatternError::InvalidToken)
    } else if elems.len() == 0 {
        Err(PatternError::Empty)
    } else {
        Ok(elems)
    }
}

/// The pattern matches the buffer at offset `i`: it fits, and every exact
/// element equals the byte under it.
pub open spec fn matches_at(buf: Seq<u8>, pat: Seq<PatternElement>, i: int) -> bool {
    &&& 0 <= i
    &&& i + pat.len() <= buf.len()
    &&& forall|j: int|
        0 <= j < pat.len() ==> (#[trigger] pat[j] matches PatternElement::Byte(b) ==> buf[i + j] == b)
}

/// The addresses `base + i` of the matching offsets `i < n`, ascending.
pub open spec fn pattern_hits(buf: Seq<u8>, pat: Seq<PatternElement>, base: u64, n: nat) -> Seq<u64>
    decreases n,
{
    if n == 0 {
        seq![]
    } else {
        let prev = pattern_hits(buf, pat, base, (n - 1) as nat);
        if matches_at(buf, pat, n - 1) {
            prev.push((base + n - 1) as u64)
        } else {
            prev
        }
    }
}

fn matches_at_offset(buffer: &[u8], pattern: &[PatternElement], i: usize) -> (r: bool)
    requires
        i + pattern@.len() <= buffer@.len(),
    ensures
        r == matches_at(buffer@, pattern@, i as int),
{
    let n = buffer.len();
    let mut j: usize = 0;
    while j < pattern.len()
        invariant
            i + pattern@.len() <= buffer@.len(),
            j <= pattern@.len(),
            n == buffer@.len(),
            forall|t: int|
                0 <= t < j ==> (#[trigger] pattern@[t] matches PatternElement::Byte(b) ==> buffer@[i + t] == b),
        decreases pattern@.len() - j,
    {
        match pattern[j] {
            PatternElement::Byte(b) => {
                if buffer[i + j] != b {
                    return false;
                }
            },
            PatternElement::Wildcard => {},
        }
        j = j + 1;
    }
    true
}

/// Every address `base_addr + i` at which the pattern matches the buffer, for
/// each start offset `i` from 0 to `buffer.len() - pattern.len()` inclusive,
/// ascending.
pub fn scan_pattern(buffer: &[u8], pattern: &[PatternElement], base_addr: u64) -> (r: Vec<u64>)
    requires
        base_addr + buffer@.len() <= u64::MAX,
    ensures
        r@ == pattern_hits(buffer@, pattern@, base_addr, (buffer@.len() + 1) as nat),
{
    let mut results: Vec<u64> = Vec::new();
    if pattern.len() > buffer.len() {
        proof {
            lemma_no_hits_past_end(buffer@, pattern@, base_addr, (buffer@.len() + 1) as nat);
        }
        return results;
    }
    let last = buffer.len() - pattern.len();
    let mut i: usize = 0;
    loop
        invariant_except_break
            results@ == pattern_hits(buffer@, pattern@, base_addr, i as nat),
        invariant
            last == buffer@.len() - pattern@.len(),
            i <= last,
            base_addr + buffer@.len() <= u64::MAX,
        ensures
            results@ == pattern_hits(buffer@, pattern@, base_addr, (last + 1) as nat),
        decreases last - i,
    {
        if matches_at_offset(buffer, pattern, i) {
            results.push(base_addr + i as u64);
        }
        if i == last {
            break;
        }
        i = i + 1;
    }
    proof {
        lemma_hits_stable(buffer@, pattern@, base_addr, (last + 1) as nat, (buffer@.len() + 1) as nat);
    }
    results
}

proof fn lemma_no_hits_past_end(buf: Seq<u8>, pat: Seq<PatternElement>, base: u64, n: nat)
    requires
        pat.len() > buf.len(),
    ensures
        pattern_hits(buf, pat, base, n) == Seq::<u64>::empty(),
    decreases n,
{
    if n > 0 {
        lemma_no_hits_past_end(buf, pat, base, (n - 1) as nat);
    }
}

/// Offsets past `buffer.len() - pattern.len()` add no hits.
proof fn lemma_hits_stable(buf: Seq<u8>, pat: Seq<PatternElement>, base: u64, m: nat, n: nat)
    requires
        pat.len() <= buf.len(),
        m == buf.len() - pat.len() + 1,
        m <= n,
    ensures
        pattern_hits(buf, pat, base, n) == pattern_hits(buf, pat, base, m),
    decreases n,
{
    if n > m {
        lemma_hits_stable(buf, pat, base, m, (n - 1) as nat);
    }
}

/// A pattern made only of `k` wildcards matches at every offset from 0 to
/// `len - k` inclusive, so its hits are all of `base .. base + len - k`.
pub proof fn lemma_wildcards_match_everywhere(buf: Seq<u8>, pat: Seq<PatternElement>, base: u64)
    requires
        pat.len() <= buf.len(),
        base + buf.len() <= u64::MAX,
        forall|j: int| 0 <= j < pat.len() ==> pat[j] == PatternElement::Wildcard,
    ensures
        pattern_hits(buf, pat, base, (buf.len() + 1) as nat) == Seq::new(
            (buf.len() - pat.len() + 1) as nat,
            |i: int| (base + i) as u64,
        ),
{
    let m = (buf.len() - pat.len() + 1) as nat;
    lemma_hits_stable(buf, pat, base, m, (buf.len() + 1) as nat);
    lemma_wildcard_prefix(buf, pat, base, m);
}

proof fn lemma_wildcard_prefix(buf: Seq<u8>, pat: Seq<PatternElement>, base: u64, n: nat)
    requires
        n <= buf.len() - pat.len() + 1,
        pat.len() <= buf.len(),
        forall|j: int| 0 <= j < pat.len() ==> pat[j] == PatternElement::Wildcard,
    ensures
        pattern_hits(buf, pat, base, n) == Seq::new(n, |i: int| (base + i) as u64),
    decreases n,
{
    if n > 0 {
        lemma_wildcard_prefix(buf, pat, base, (n - 1) as nat);
        assert(matches_at(buf, pat, n - 1));
        assert(pattern_hits(buf, pat, base, n) =~= Seq::new(n, |i: int| (base + i) as u64));
    } else {
        assert(pattern_hits(buf, pat, base, n) =~= Seq::new(n, |i: int| (base + i) as u64));
    }
}

} // verus!
