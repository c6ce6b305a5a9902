//! Typed value scanning: a first pass over a whole buffer, and incremental
//! passes that re-examine the addresses a previous pass reported.
use vstd::prelude::*;
use vstd::arithmetic::div_mod::lemma_mod_multiples_basic;
use vstd::string::*;
use vstd::utf8::encode_utf8;

verus! {

/// The value searched for. Integers are read as 8 little-endian bytes; text is
/// matched by its UTF-8 bytes.
#[derive(Clone, Debug)]
pub enum ScanValue {
    Integer(i64),
    String(String),
    Bytes(Vec<u8>),
}

/// How an incremental pass compares the value now at an address: `Equal`,
/// `NotEqual`, `Greater` and `Less` against the target, `Changed` and
/// `Unchanged` against the value the previous pass stored.
#[derive(Clone, Copy, Debug, PartialEq, Eq, Structural)]
pub enum CompareType {
    Equal,
    NotEqual,
    Greater,
    Less,
    Changed,
    Unchanged,
}

/// The value found at a reported address, of the kind that was searched for.
/// Text is kept as the bytes read.
#[derive(Clone, Debug)]
pub enum FoundValue {
    Integer(i64),
    String(Vec<u8>),
    Bytes(Vec<u8>),
}

/// One reported address and the value found there.
#[derive(Clone, Debug)]
pub struct ScanResult {
    pub address: u64,
    pub value: FoundValue,
}

/// A found value as mathematical data.
pub enum FoundView {
    Integer(i64),
    String(Seq<u8>),
    Bytes(Seq<u8>),
}

/// A scan result as mathematical data.
pub struct ResultView {
    pub address: u64,
    pub value: FoundView,
}

impl View for FoundValue {
    type V = FoundView;

    open spec fn view(&self) -> FoundView {
        match self {
            FoundValue::Integer(i) => FoundView::Integer(*i),
            FoundValue::String(b) => FoundView::String(b@),
            FoundValue::Bytes(b) => FoundView::Bytes(b@),
        }
    }
}

impl View for ScanResult {
    type V = ResultView;

    open spec fn view(&self) -> ResultView {
        ResultView { address: self.address, value: self.value@ }
    }
}

/// The results of a scan as mathematical data.
pub open spec fn results_view(r: Seq<ScanResult>) -> Seq<ResultView> {
    r.map_values(|x: ScanResult| x@)
}

/// The bytes a text or byte target must equal.
pub open spec fn target_bytes(v: ScanValue) -> Seq<u8> {
    match v {
        ScanValue::Integer(_) => seq![],
        ScanValue::String(s) => encode_utf8(s@),
        ScanValue::Bytes(b) => b@,
    }
}

/// The number of bytes a value occupies in memory.
pub open spec fn value_width(v: ScanValue) -> nat {
    match v {
        ScanValue::Integer(_) => 8,
        _ => target_bytes(v).len(),
    }
}

impl ScanValue {
    /// The number of bytes the value occupies in memory: 8 for an integer,
    /// the byte length otherwise.
    pub fn size(&self) -> (r: usize)
        ensures
            r == value_width(*self),
    {
        match self {
            ScanValue::Integer(_) => 8,
            ScanValue::String(s) => s.as_str().as_bytes().len(),
            ScanValue::Bytes(b) => b.len(),
        }
    }
}

/// The unsigned value of bytes read little-endian.
pub open spec fn le_value(s: Seq<u8>) -> nat
    decreases s.len(),
{
    if s.len() == 0 {
        0
    } else {
        s[0] as nat + 256 * le_value(s.drop_first())
    }
}

/// The signed 64-bit integer whose little-endian bytes are `s`.
pub open spec fn le_i64(s: Seq<u8>) -> i64 {
    le_value(s) as i64
}

/// The `n` bytes of `buf` from offset `o`.
pub open spec fn window(buf: Seq<u8>, o: int, n: nat) -> Seq<u8> {
    buf.subrange(o, o + n)
}

/// A value of the target's width fits in the buffer at offset `o`.
pub open spec fn fits(buf: Seq<u8>, v: ScanValue, o: int) -> bool {
    0 <= o && o + value_width(v) <= buf.len()
}

/// What is read at offset `o`, of the target's kind.
pub open spec fn found_at(buf: Seq<u8>, v: ScanValue, o: int) -> FoundView {
    match v {
        ScanValue::Integer(_) => FoundView::Integer(le_i64(window(buf, o, 8))),
        ScanValue::String(_) => FoundView::String(window(buf, o, value_width(v))),
        ScanValue::Bytes(_) => FoundView::Bytes(window(buf, o, value_width(v))),
    }
}

/// The value at offset `o` equals the target: the same integer, or the same
/// bytes.
pub open spec fn equals_target(buf: Seq<u8>, v: ScanValue, o: int) -> bool {
    match v {
        ScanValue::Integer(t) => le_i64(window(buf, o, 8)) == t,
        _ => window(buf, o, value_width(v)) == target_bytes(v),
    }
}

/// Lexicographic order on byte strings, a proper prefix coming first.
pub open spec fn bytes_less(a: Seq<u8>, b: Seq<u8>) -> bool
    decreases a.len(),
{
    if a.len() == 0 {
        b.len() > 0
    } else if b.len() == 0 {
        false
    } else if a[0] != b[0] {
        a[0] < b[0]
    } else {
        bytes_less(a.drop_first(), b.drop_first())
    }
}

/// The comparison `c` of a current integer `x` with the target `t` or the
/// previous value `p`.
pub open spec fn int_compare(x: i64, t: i64, p: i64, c: CompareType) -> bool {
    match c {
        CompareType::Equal => x == t,
        CompareType::NotEqual => x != t,
        CompareType::Greater => x > t,
        CompareType::Less => x < t,
        CompareType::Changed => x != p,
        CompareType::Unchanged => x == p,
    }
}

/// The comparison `c` of current bytes `x` with the target `t` or the
/// previous bytes `p`; `Greater` and `Less` go by lexicographic order.
pub open spec fn bytes_compare(x: Seq<u8>, t: Seq<u8>, p: Seq<u8>, c: CompareType) -> bool {
    match c {
        CompareType::Equal => x == t,
        CompareType::NotEqual => x != t,
        CompareType::Greater => bytes_less(t, x),
        CompareType::Less => bytes_less(x, t),
        CompareType::Changed => x != p,
        CompareType::Unchanged => x == p,
    }
}

/// Whether the value now at offset `o` passes the comparison against a
/// previous value. A previous value of another kind than the target never
/// passes.
pub open spec fn compare_holds(buf: Seq<u8>, v: ScanValue, o: int, prev: FoundView, c: CompareType) -> bool {
    match (v, prev) {
        (ScanValue::Integer(t), FoundView::Integer(p)) => int_compare(le_i64(window(buf, o, 8)), t, p, c),
        (ScanValue::String(_), FoundView::String(p)) => bytes_compare(
            window(buf, o, value_width(v)),
            target_bytes(v),
            p,
            c,
        ),
        (ScanValue::Bytes(_), FoundView::Bytes(p)) => bytes_compare(
            window(buf, o, value_width(v)),
            target_bytes(v),
            p,
            c,
        ),
        _ => false,
    }
}

/// First pass: the hits among the offsets `0, a, 2a, ..., (k - 1) * a`, in
/// ascending order.
pub open spec fn first_pass_hits(buf: Seq<u8>, v: ScanValue, a: nat, base: u64, k: nat) -> Seq<ResultView>
    decreases k,
{
    if k == 0 {
        seq![]
    } else {
        let prev = first_pass_hits(buf, v, a, base, (k - 1) as nat);
        let o = (k - 1) * a;
        if fits(buf, v, o) && equals_target(buf, v, o) {
            prev.push(ResultView { address: (base + o) as u64, value: found_at(buf, v, o) })
        } else {
            prev
        }
    }
}

/// A previous address lies in this buffer, with room for the target's width.
pub open spec fn in_region(buf: Seq<u8>, v: ScanValue, base: u64, addr: u64) -> bool {
    base <= addr && fits(buf, v, addr - base)
}

/// Incremental pass: the previous results whose address lies in this buffer
/// and whose current value passes the comparison, in their order, each with
/// the value now found.
pub open spec fn incremental_hits(
    buf: Seq<u8>,
    v: ScanValue,
    base: u64,
    prev: Seq<ResultView>,
    c: CompareType,
) -> Seq<ResultView>
    decreases prev.len(),
{
    if prev.len() == 0 {
        seq![]
    } else {
        let r = incremental_hits(buf, v, base, prev.drop_last(), c);
        let p = prev.last();
        let o = p.address - base;
        if in_region(buf, v, base, p.address) && compare_holds(buf, v, o, p.value, c) {
            r.push(ResultView { address: p.address, value: found_at(buf, v, o) })
        } else {
            r
        }
    }
}

spec fn pow256(n: nat) -> nat
    decreases n,
{
    if n == 0 {
        1
    } else {
        256 * pow256((n - 1) as nat)
    }
}

proof fn lemma_pow256_mono(i: nat, j: nat)
    requires
        i <= j,
    ensures
        pow256(i) <= pow256(j),
    decreases j,
{
    if i < j {
        lemma_pow256_mono(i, (j - 1) as nat);
    }
}

/// Reads the little-endian signed integer at `buf[o .. o + 8]`.
fn read_i64_le(buf: &[u8], o: usize) -> (r: i64)
    requires
        o + 8 <= buf@.len(),
    ensures
        r == le_i64(window(buf@, o as int, 8)),
{
    let len = buf.len();
    let mut v: u64 = 0;
    let mut k: usize = 8;
    proof {
        assert(buf@.subrange(o + 8, o + 8) =~= Seq::<u8>::empty());
        reveal_with_fuel(pow256, 9);
    }
    while k > 0
        invariant
            o + 8 <= buf@.len(),
            len == buf@.len(),
            k <= 8,
            v as nat == le_value(buf@.subrange(o + k, o + 8)),
            (v as nat) < pow256((8 - k) as nat),
            pow256(8) == 0x1_0000_0000_0000_0000,
        decreases k,
    {
        let b = buf[o + k - 1];
        proof {
            let s = buf@.subrange(o + k - 1, o + 8);
            assert(s.drop_first() =~= buf@.subrange(o + k, o + 8));
            assert(s[0] == b);
            let p = pow256((8 - k) as nat);
            assert(v * 256 + b < 256 * p) by (nonlinear_arith)
                requires
                    v < p,
                    b < 256,
            ;
            assert(pow256((9 - k) as nat) == 256 * p);
            lemma_pow256_mono((9 - k) as nat, 8);
        }
        v = v * 256 + b as u64;
        k = k - 1;
    }
    #[verifier::truncate]
    (v as i64)
}

/// A copy of `buf[o .. o + n]`.
pub(crate) fn copy_window(buf: &[u8], o: usize, n: usize) -> (r: Vec<u8>)
    requires
        o + n <= buf@.len(),
    ensures
        r@ == window(buf@, o as int, n as nat),
{
    let len = buf.len();
    let mut r: Vec<u8> = Vec::new();
    let mut j: usize = 0;
    while j < n
        invariant
            o + n <= buf@.len(),
            len == buf@.len(),
            j <= n,
            r@ == buf@.subrange(o as int, o + j),
        decreases n - j,
    {
        r.push(buf[o + j]);
        j = j + 1;
        assert(r@ =~= buf@.subrange(o as int, o + j));
    }
    r
}

/// Whether `buf[o .. o + t.len()]` equals `t`.
fn window_equals(buf: &[u8], o: usize, t: &[u8]) -> (r: bool)
    requires
        o + t@.len() <= buf@.len(),
    ensures
        r == (window(buf@, o as int, t@.len()) == t@),
{
    let n = t.len();
    let len = buf.len();
    let mut j: usize = 0;
    while j < n
        invariant
            n == t@.len(),
            len == buf@.len(),
            o + n <= buf@.len(),
            j <= n,
            forall|i: int| 0 <= i < j ==> buf@[o + i] == t@[i],
        decreases n - j,
    {
        if buf[o + j] != t[j] {
            assert(window(buf@, o as int, t@.len())[j as int] != t@[j as int]);
            return false;
        }
        j = j + 1;
    }
    assert(window(buf@, o as int, t@.len()) =~= t@);
    true
}

/// Whether two byte strings are equal.
fn bytes_equal(a: &[u8], b: &[u8]) -> (r: bool)
    ensures
        r == (a@ == b@),
{
    if a.len() != b.len() {
        return false;
    }
    let mut j: usize = 0;
    while j < a.len()
        invariant
            a@.len() == b@.len(),
            j <= a@.len(),
            forall|i: int| 0 <= i < j ==> a@[i] == b@[i],
        decreases a@.len() - j,
    {
        if a[j] != b[j] {
            return false;
        }
        j = j + 1;
    }
    assert(a@ =~= b@);
    true
}

/// Whether `a` comes before `b` in lexicographic order.
fn less_bytes(a: &[u8], b: &[u8]) -> (r: bool)
    ensures
        r == bytes_less(a@, b@),
{
    let mut i: usize = 0;
    assert(a@.subrange(0, a@.len() as int) =~= a@);
    assert(b@.subrange(0, b@.len() as int) =~= b@);
    while i < a.len() && i < b.len()
        invariant
            i <= a@.len(),
            i <= b@.len(),
            bytes_less(a@, b@) == bytes_less(
                a@.subrange(i as int, a@.len() as int),
                b@.subrange(i as int, b@.len() as int),
            ),
        decreases a@.len() - i,
    {
        let ghost sa = a@.subrange(i as int, a@.len() as int);
        let ghost sb = b@.subrange(i as int, b@.len() as int);
        assert(sa[0] == a@[i as int] && sb[0] == b@[i as int]);
        if a[i] != b[i] {
            return a[i] < b[i];
        }
        assert(sa.drop_first() =~= a@.subrange(i + 1, a@.len() as int));
        assert(sb.drop_first() =~= b@.subrange(i + 1, b@.len() as int));
        i = i + 1;
    }
    i == a.len() && i < b.len()
}

/// The value of the target's kind read at offset `offset`, reported at
/// `address`.
fn create_scan_result(buffer: &[u8], offset: usize, address: u64, search_value: &ScanValue) -> (r: ScanResult)
    requires
        fits(buffer@, *search_value, offset as int),
    ensures
        r@ == (ResultView { address, value: found_at(buffer@, *search_value, offset as int) }),
{
    let value = match search_value {
        ScanValue::Integer(_) => FoundValue::Integer(read_i64_le(buffer, offset)),
        ScanValue::String(_) => FoundValue::String(copy_window(buffer, offset, search_value.size())),
        ScanValue::Bytes(_) => FoundValue::Bytes(copy_window(buffer, offset, search_value.size())),
    };
    ScanResult { address, value }
}


/// Offsets from `m * a` on do not fit, so they add no hits.
proof fn lemma_first_pass_stable(buf: Seq<u8>, v: ScanValue, a: nat, base: u64, m: nat, n: nat)
    requires
        a >= 1,
        m <= n,
        m * a + value_width(v) > buf.len(),
    ensures
        first_pass_hits(buf, v, a, base, n) == first_pass_hits(buf, v, a, base, m),
    decreases n,
{
    if n > m {
        let k = (n - 1) as nat;
        assert(k * a >= m * a) by (nonlinear_arith)
            requires
                k >= m,
        ;
        lemma_first_pass_stable(buf, v, a, base, m, k);
    }
}

/// Whether the target equals the value at offset `o`.
fn equals_at(buffer: &[u8], search_value: &ScanValue, o: usize) -> (r: bool)
    requires
        fits(buffer@, *search_value, o as int),
    ensures
        r == equals_target(buffer@, *search_value, o as int),
{
    match search_value {
        ScanValue::Integer(t) => read_i64_le(buffer, o) == *t,
        ScanValue::String(s) => window_equals(buffer, o, s.as_str().as_bytes()),
        ScanValue::Bytes(b) => window_equals(buffer, o, b.as_slice()),
    }
}

/// First pass over one buffer: every offset `o` that is a multiple of
/// `alignment`, has room for the target's width and holds a value equal to the
/// target, reported at `base_addr + o` in ascending order.
pub fn first_pass(buffer: &[u8], search_value: &ScanValue, alignment: usize, base_addr: u64) -> (r: Vec<
    ScanResult,
>)
    requires
        alignment >= 1,
        base_addr + buffer@.len() <= u64::MAX,
    ensures
        results_view(r@) == first_pass_hits(
            buffer@,
            *search_value,
            alignment as nat,
            base_addr,
            (buffer@.len() + 1) as nat,
        ),
        forall|j: int|
            0 <= j < r@.len() ==> {
                let h = #[trigger] r@[j];
                &&& base_addr <= h.address
                &&& (h.address - base_addr) % (alignment as int) == 0
                &&& fits(buffer@, *search_value, h.address - base_addr)
                &&& found_equals_target(h.value@, *search_value)
            },
{
    let r = first_pass_scan(buffer, search_value, alignment, base_addr);
    proof {
        lemma_first_pass_aligned_and_exact(
            buffer@,
            *search_value,
            alignment as nat,
            base_addr,
            (buffer@.len() + 1) as nat,
        );
        assert forall|j: int| 0 <= j < r@.len() implies {
            let h = #[trigger] r@[j];
            &&& base_addr <= h.address
            &&& (h.address - base_addr) % (alignment as int) == 0
            &&& fits(buffer@, *search_value, h.address - base_addr)
            &&& found_equals_target(h.value@, *search_value)
        } by {
            assert(results_view(r@)[j] == r@[j]@);
        }
    }
    r
}

fn first_pass_scan(buffer: &[u8], search_value: &ScanValue, alignment: usize, base_addr: u64) -> (r: Vec<
    ScanResult,
>)
    requires
        alignment >= 1,
        base_addr + buffer@.len() <= u64::MAX,
    ensures
        results_view(r@) == first_pass_hits(
            buffer@,
            *search_value,
            alignment as nat,
            base_addr,
            (buffer@.len() + 1) as nat,
        ),
{
    let len = buffer.len();
    let size = search_value.size();
    let ghost v = *search_value;
    let ghost a = alignment as nat;
    let mut results: Vec<ScanResult> = Vec::new();
    if size > len {
        proof {
            lemma_first_pass_stable(buffer@, v, a, base_addr, 0, (len + 1) as nat);
            assert(results_view(results@) =~= seq![]);
        }
        return results;
    }
    let mut o: usize = 0;
    let ghost mut k: nat = 0;
    loop
        invariant_except_break
            results_view(results@) == first_pass_hits(buffer@, v, a, base_addr, k),
            o == k * a,
            o + size <= len,
        invariant
            len == buffer@.len(),
            size == value_width(v),
            v == *search_value,
            a == alignment,
            alignment >= 1,
            k <= o,
            base_addr + buffer@.len() <= u64::MAX,
        ensures
            results_view(results@) == first_pass_hits(buffer@, v, a, base_addr, k + 1),
            (k + 1) * a + size > len,
            k + 1 <= len + 1,
        decreases len - o,
    {
        let ghost before = results@;
        if equals_at(buffer, search_value, o) {
            let r = create_scan_result(buffer, o, base_addr + o as u64, search_value);
            results.push(r);
            assert(results_view(results@) =~= results_view(before).push(r@));
        }
        assert(results_view(results@) == first_pass_hits(buffer@, v, a, base_addr, k + 1));
        if alignment > len - size - o {
            assert((k + 1) * a == k * a + a) by (nonlinear_arith);
            break;
        }
        o = o + alignment;
        proof {
            assert((k + 1) * a == k * a + a) by (nonlinear_arith);
            k = k + 1;
        }
    }
    proof {
        lemma_first_pass_stable(buffer@, v, a, base_addr, k + 1, (len + 1) as nat);
    }
    results
}

fn compare_ints(x: i64, t: i64, p: i64, c: CompareType) -> (r: bool)
    ensures
        r == int_compare(x, t, p, c),
{
    match c {
        CompareType::Equal => x == t,
        CompareType::NotEqual => x != t,
        CompareType::Greater => x > t,
        CompareType::Less => x < t,
        CompareType::Changed => x != p,
        CompareType::Unchanged => x == p,
    }
}

fn compare_window(buffer: &[u8], o: usize, t: &[u8], p: &[u8], c: CompareType) -> (r: bool)
    requires
        o + t@.len() <= buffer@.len(),
    ensures
        r == bytes_compare(window(buffer@, o as int, t@.len()), t@, p@, c),
{
    let cur = copy_window(buffer, o, t.len());
    match c {
        CompareType::Equal => bytes_equal(cur.as_slice(), t),
        CompareType::NotEqual => !bytes_equal(cur.as_slice(), t),
        CompareType::Greater => less_bytes(t, cur.as_slice()),
        CompareType::Less => less_bytes(cur.as_slice(), t),
        CompareType::Changed => !bytes_equal(cur.as_slice(), p),
        CompareType::Unchanged => bytes_equal(cur.as_slice(), p),
    }
}

/// Whether the value now at offset `o` passes the comparison against a
/// previous value.
fn passes_compare(buffer: &[u8], search_value: &ScanValue, o: usize, prev: &FoundValue, c: CompareType) -> (r:
    bool)
    requires
        fits(buffer@, *search_value, o as int),
    ensures
        r == compare_holds(buffer@, *search_value, o as int, prev@, c),
{
    match (search_value, prev) {
        (ScanValue::Integer(t), FoundValue::Integer(p)) => compare_ints(read_i64_le(buffer, o), *t, *p, c),
        (ScanValue::String(s), FoundValue::String(p)) => compare_window(
            buffer,
            o,
            s.as_str().as_bytes(),
            p.as_slice(),
            c,
        ),
        (ScanValue::Bytes(b), FoundValue::Bytes(p)) => compare_window(buffer, o, b.as_slice(), p.as_slice(), c),
        _ => false,
    }
}

/// Incremental pass over one buffer: of the previous results, in their order,
/// those whose address lies in `[base_addr, base_addr + buffer.len())` with
/// room for the target's width and whose current value passes `compare_type`,
/// each with the value now found. No other address is reported.
pub fn incremental_pass(
    buffer: &[u8],
    search_value: &ScanValue,
    base_addr: u64,
    previous_results: &[ScanResult],
    compare_type: CompareType,
) -> (r: Vec<ScanResult>)
    requires
        base_addr + buffer@.len() <= u64::MAX,
    ensures
        results_view(r@) == incremental_hits(
            buffer@,
            *search_value,
            base_addr,
            results_view(previous_results@),
            compare_type,
        ),
        forall|j: int|
            0 <= j < r@.len() ==> exists|i: int|
                0 <= i < previous_results@.len() && (#[trigger] r@[j]).address == previous_results@[i].address,
{
    let r = incremental_scan(buffer, search_value, base_addr, previous_results, compare_type);
    proof {
        let pv = results_view(previous_results@);
        lemma_incremental_only_previous(buffer@, *search_value, base_addr, pv, compare_type);
        assert forall|j: int| 0 <= j < r@.len() implies exists|i: int|
            0 <= i < previous_results@.len() && (#[trigger] r@[j]).address == previous_results@[i].address by {
            assert(results_view(r@)[j] == r@[j]@);
            let i = choose|i: int| 0 <= i < pv.len() && results_view(r@)[j].address == pv[i].address;
            assert(pv[i] == previous_results@[i]@);
        }
    }
    r
}

fn incremental_scan(
    buffer: &[u8],
    search_value: &ScanValue,
    base_addr: u64,
    previous_results: &[ScanResult],
    compare_type: CompareType,
) -> (r: Vec<ScanResult>)
    requires
        base_addr + buffer@.len() <= u64::MAX,
    ensures
        results_view(r@) == incremental_hits(
            buffer@,
            *search_value,
            base_addr,
            results_view(previous_results@),
            compare_type,
        ),
{
    let len = buffer.len();
    let size = search_value.size();
    let ghost v = *search_value;
    let mut results: Vec<ScanResult> = Vec::new();
    let mut i: usize = 0;
    while i < previous_results.len()
        invariant
            len == buffer@.len(),
            size == value_width(v),
            v == *search_value,
            i <= previous_results@.len(),
            base_addr + buffer@.len() <= u64::MAX,
            results_view(results@) == incremental_hits(
                buffer@,
                v,
                base_addr,
                results_view(previous_results@.subrange(0, i as int)),
                compare_type,
            ),
        decreases previous_results@.len() - i,
    {
        let ghost before = results@;
        let ghost pv = results_view(previous_results@.subrange(0, i + 1));
        assert(pv.drop_last() =~= results_view(previous_results@.subrange(0, i as int)));
        assert(pv.last() == previous_results@[i as int]@);
        let p = &previous_results[i];
        let addr = p.address;
        if addr >= base_addr && addr - base_addr <= len as u64 && size <= len - ((addr - base_addr) as usize) {
            let o = (addr - base_addr) as usize;
            if passes_compare(buffer, search_value, o, &p.value, compare_type) {
                let r = create_scan_result(buffer, o, addr, search_value);
                results.push(r);
                assert(results_view(results@) =~= results_view(before).push(r@));
            }
        }
        i = i + 1;
    }
    assert(previous_results@.subrange(0, i as int) =~= previous_results@);
    results
}

/// Scans one region's buffer. With previous results and a comparison this is
/// an incremental pass over those results; otherwise a first pass over every
/// aligned offset.
pub fn scan_buffer(
    buffer: &[u8],
    search_value: &ScanValue,
    alignment: usize,
    base_addr: u64,
    previous_results: Option<&[ScanResult]>,
    compare_type: Option<CompareType>,
) -> (r: Vec<ScanResult>)
    requires
        alignment >= 1,
        base_addr + buffer@.len() <= u64::MAX,
    ensures
        results_view(r@) == match (previous_results, compare_type) {
            (Some(prev), Some(c)) => incremental_hits(buffer@, *search_value, base_addr, results_view(prev@), c),
            _ => first_pass_hits(
                buffer@,
                *search_value,
                alignment as nat,
                base_addr,
                (buffer@.len() + 1) as nat,
            ),
        },
{
    match (previous_results, compare_type) {
        (Some(prev), Some(c)) => incremental_pass(buffer, search_value, base_addr, prev, c),
        _ => first_pass(buffer, search_value, alignment, base_addr),
    }
}


/// A reported value is of the target's kind and equals the target.
pub open spec fn found_equals_target(f: FoundView, v: ScanValue) -> bool {
    match (f, v) {
        (FoundView::Integer(x), ScanValue::Integer(t)) => x == t,
        (FoundView::String(b), ScanValue::String(_)) => b == target_bytes(v),
        (FoundView::Bytes(b), ScanValue::Bytes(_)) => b == target_bytes(v),
        _ => false,
    }
}

/// A stored value is of the same kind as the target.
pub open spec fn same_kind(v: ScanValue, f: FoundView) -> bool {
    match (v, f) {
        (ScanValue::Integer(_), FoundView::Integer(_)) => true,
        (ScanValue::String(_), FoundView::String(_)) => true,
        (ScanValue::Bytes(_), FoundView::Bytes(_)) => true,
        _ => false,
    }
}

/// Every first-pass hit lies at an offset from the base that is a multiple of
/// the alignment and leaves room for the target, and the value reported there
/// equals the target exactly: the same integer, or the same bytes.
pub proof fn lemma_first_pass_aligned_and_exact(buf: Seq<u8>, v: ScanValue, a: nat, base: u64, n: nat)
    requires
        a >= 1,
        base + buf.len() <= u64::MAX,
    ensures
        forall|j: int|
            0 <= j < first_pass_hits(buf, v, a, base, n).len() ==> {
                let h = #[trigger] first_pass_hits(buf, v, a, base, n)[j];
                &&& base <= h.address
                &&& (h.address - base) % (a as int) == 0
                &&& fits(buf, v, h.address - base)
                &&& equals_target(buf, v, h.address - base)
                &&& h.value == found_at(buf, v, h.address - base)
                &&& found_equals_target(h.value, v)
            },
    decreases n,
{
    if n > 0 {
        let k = (n - 1) as nat;
        lemma_first_pass_aligned_and_exact(buf, v, a, base, k);
        let o = (k * a) as int;
        lemma_mod_multiples_basic(k as int, a as int);
        let prev = first_pass_hits(buf, v, a, base, k);
        let hits = first_pass_hits(buf, v, a, base, n);
        if fits(buf, v, o) && equals_target(buf, v, o) {
            assert(hits == prev.push(ResultView { address: (base + o) as u64, value: found_at(buf, v, o) }));
            assert(hits[prev.len() as int].address == base + o);
        }
        assert forall|j: int| 0 <= j < hits.len() implies {
            let h = #[trigger] hits[j];
            &&& base <= h.address
            &&& (h.address - base) % (a as int) == 0
            &&& fits(buf, v, h.address - base)
            &&& equals_target(buf, v, h.address - base)
            &&& h.value == found_at(buf, v, h.address - base)
            &&& found_equals_target(h.value, v)
        } by {
            if j < prev.len() {
                assert(hits[j] == prev[j]);
            }
        }
    }
}

/// An incremental pass reports only addresses that occur among the previous
/// results.
pub proof fn lemma_incremental_only_previous(
    buf: Seq<u8>,
    v: ScanValue,
    base: u64,
    prev: Seq<ResultView>,
    c: CompareType,
)
    ensures
        forall|j: int|
            0 <= j < incremental_hits(buf, v, base, prev, c).len() ==> exists|i: int|
                0 <= i < prev.len() && (#[trigger] incremental_hits(buf, v, base, prev, c)[j]).address
                    == prev[i].address,
    decreases prev.len(),
{
    if prev.len() > 0 {
        let rest = prev.drop_last();
        lemma_incremental_only_previous(buf, v, base, rest, c);
        let r = incremental_hits(buf, v, base, rest, c);
        let hits = incremental_hits(buf, v, base, prev, c);
        assert forall|j: int| 0 <= j < hits.len() implies exists|i: int|
            0 <= i < prev.len() && (#[trigger] hits[j]).address == prev[i].address by {
            if j < r.len() {
                assert(hits[j] == r[j]);
                let i = choose|i: int| 0 <= i < rest.len() && r[j].address == rest[i].address;
                assert(prev[i] == rest[i]);
            } else {
                assert(hits[j].address == prev[prev.len() - 1].address);
            }
        }
    }
}

/// For an address inside the buffer whose stored value is of the target's
/// kind, exactly one of `Changed` and `Unchanged` holds.
pub proof fn lemma_changed_unchanged_complementary(buf: Seq<u8>, v: ScanValue, o: int, prev: FoundView)
    requires
        fits(buf, v, o),
        same_kind(v, prev),
    ensures
        compare_holds(buf, v, o, prev, CompareType::Changed) != compare_holds(
            buf,
            v,
            o,
            prev,
            CompareType::Unchanged,
        ),
{
}


/// Whether two strings hold the same characters.
pub(crate) fn str_equal(a: &str, b: &str) -> (r: bool)
    ensures
        r == (a@ == b@),
{
    let n = a.unicode_len();
    if n != b.unicode_len() {
        return false;
    }
    let mut i: usize = 0;
    while i < n
        invariant
            n == a@.len(),
            n == b@.len(),
            i <= n,
            forall|k: int| 0 <= k < i ==> a@[k] == b@[k],
        decreases n - i,
    {
        if a.get_char(i) != b.get_char(i) {
            return false;
        }
        i = i + 1;
    }
    assert(a@ =~= b@);
    true
}

/// The kinds of value a scan request may name.
#[derive(Clone, Copy, Debug, PartialEq, Eq, Structural)]
pub enum ValueKind {
    Int,
    Float,
    Double,
    String,
    Bytes,
}

/// The value kind a request names, if any.
pub open spec fn value_kind_named(name: Seq<char>) -> Option<ValueKind> {
    if name == seq!['i', 'n', 't'] {
        Some(ValueKind::Int)
    } else if name == seq!['f', 'l', 'o', 'a', 't'] {
        Some(ValueKind::Float)
    } else if name == seq!['d', 'o', 'u', 'b', 'l', 'e'] {
        Some(ValueKind::Double)
    } else if name == seq!['s', 't', 'r', 'i', 'n', 'g'] {
        Some(ValueKind::String)
    } else if name == seq!['b', 'y', 't', 'e', 's'] {
        Some(ValueKind::Bytes)
    } else {
        None
    }
}

impl ValueKind {
    /// The kind named `int`, `float`, `double`, `string` or `bytes`; any other
    /// name is unsupported.
    pub fn from_name(name: &str) -> (r: Option<ValueKind>)
        ensures
            r == value_kind_named(name@),
    {
        proof {
            reveal_strlit("int");
            reveal_strlit("float");
            reveal_strlit("double");
            reveal_strlit("string");
            reveal_strlit("bytes");
            assert("int"@ =~= seq!['i', 'n', 't']);
            assert("float"@ =~= seq!['f', 'l', 'o', 'a', 't']);
            assert("double"@ =~= seq!['d', 'o', 'u', 'b', 'l', 'e']);
            assert("string"@ =~= seq!['s', 't', 'r', 'i', 'n', 'g']);
            assert("bytes"@ =~= seq!['b', 'y', 't', 'e', 's']);
        }
        if str_equal(name, "int") {
            Some(ValueKind::Int)
        } else if str_equal(name, "float") {
            Some(ValueKind::Float)
        } else if str_equal(name, "double") {
            Some(ValueKind::Double)
        } else if str_equal(name, "string") {
            Some(ValueKind::String)
        } else if str_equal(name, "bytes") {
            Some(ValueKind::Bytes)
        } else {
            None
        }
    }
}

/// The comparison a request names, if any.
pub open spec fn compare_type_named(name: Seq<char>) -> Option<CompareType> {
    if name == seq!['e', 'q', 'u', 'a', 'l'] {
        Some(CompareType::Equal)
    } else if name == seq!['n', 'o', 't', 'e', 'q', 'u', 'a', 'l'] {
        Some(CompareType::NotEqual)
    } else if name == seq!['g', 'r', 'e', 'a', 't', 'e', 'r'] {
        Some(CompareType::Greater)
    } else if name == seq!['l', 'e', 's', 's'] {
        Some(CompareType::Less)
    } else if name == seq!['c', 'h', 'a', 'n', 'g', 'e', 'd'] {
        Some(CompareType::Changed)
    } else if name == seq!['u', 'n', 'c', 'h', 'a', 'n', 'g', 'e', 'd'] {
        Some(CompareType::Unchanged)
    } else {
        None
    }
}

impl CompareType {
    /// The comparison named `equal`, `notequal`, `greater`, `less`,
    /// `changed` or `unchanged`; any other name is unsupported.
    pub fn from_name(name: &str) -> (r: Option<CompareType>)
        ensures
            r == compare_type_named(name@),
    {
        proof {
            reveal_strlit("equal");
            reveal_strlit("notequal");
            reveal_strlit("greater");
            reveal_strlit("less");
            reveal_strlit("changed");
            reveal_strlit("unchanged");
            assert("equal"@ =~= seq!['e', 'q', 'u', 'a', 'l']);
            assert("notequal"@ =~= seq!['n', 'o', 't', 'e', 'q', 'u', 'a', 'l']);
            assert("greater"@ =~= seq!['g', 'r', 'e', 'a', 't', 'e', 'r']);
            assert("less"@ =~= seq!['l', 'e', 's', 's']);
            assert("changed"@ =~= seq!['c', 'h', 'a', 'n', 'g', 'e', 'd']);
            assert("unchanged"@ =~= seq!['u', 'n', 'c', 'h', 'a', 'n', 'g', 'e', 'd']);
        }
        if str_equal(name, "equal") {
            Some(CompareType::Equal)
        } else if str_equal(name, "notequal") {
            Some(CompareType::NotEqual)
        } else if str_equal(name, "greater") {
            Some(CompareType::Greater)
        } else if str_equal(name, "less") {
            Some(CompareType::Less)
        } else if str_equal(name, "changed") {
            Some(CompareType::Changed)
        } else if str_equal(name, "unchanged") {
            Some(CompareType::Unchanged)
        } else {
            None
        }
    }
}

/// The offsets `0, a, ..., (k - 1) * a` that leave room for `w` bytes in a
/// buffer of `len` bytes, ascending.
pub open spec fn examined_offsets(len: nat, w: nat, a: nat, k: nat) -> Seq<usize>
    decreases k,
{
    if k == 0 {
        seq![]
    } else {
        let prev = examined_offsets(len, w, a, (k - 1) as nat);
        let o = (k - 1) * a;
        if o + w <= len {
            prev.push(o as usize)
        } else {
            prev
        }
    }
}

proof fn lemma_examined_stable(len: nat, w: nat, a: nat, m: nat, n: nat)
    requires
        a >= 1,
        m <= n,
        m * a + w > len,
    ensures
        examined_offsets(len, w, a, n) == examined_offsets(len, w, a, m),
    decreases n,
{
    if n > m {
        let k = (n - 1) as nat;
        assert(k * a >= m * a) by (nonlinear_arith)
            requires
                k >= m,
        ;
        lemma_examined_stable(len, w, a, m, k);
    }
}

/// The offsets a first pass examines for a value of `width` bytes: every
/// multiple of `alignment` that leaves room for the value, ascending. Callers
/// that compare values themselves (floating-point targets) walk these.
pub fn aligned_offsets(len: usize, width: usize, alignment: usize) -> (r: Vec<usize>)
    requires
        alignment >= 1,
    ensures
        r@ == examined_offsets(len as nat, width as nat, alignment as nat, (len + 1) as nat),
{
    let ghost a = alignment as nat;
    let mut offsets: Vec<usize> = Vec::new();
    if width > len {
        proof {
            lemma_examined_stable(len as nat, width as nat, a, 0, (len + 1) as nat);
        }
        return offsets;
    }
    let mut o: usize = 0;
    let ghost mut k: nat = 0;
    loop
        invariant_except_break
            offsets@ == examined_offsets(len as nat, width as nat, a, k),
            o == k * a,
            o + width <= len,
        invariant
            a == alignment,
            alignment >= 1,
            k <= o,
        ensures
            offsets@ == examined_offsets(len as nat, width as nat, a, k + 1),
            (k + 1) * a + width > len,
            k + 1 <= len + 1,
        decreases len - o,
    {
        offsets.push(o);
        if alignment > len - width - o {
            assert((k + 1) * a == k * a + a) by (nonlinear_arith);
            break;
        }
        o = o + alignment;
        proof {
            assert((k + 1) * a == k * a + a) by (nonlinear_arith);
            k = k + 1;
        }
    }
    proof {
        lemma_examined_stable(len as nat, width as nat, a, k + 1, (len + 1) as nat);
    }
    offsets
}

} // verus!
