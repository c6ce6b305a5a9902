//! Cross-reference scanning: finds the instructions of a region that call,
//! jump to or point at a target address. A cheap pass over the raw bytes picks
//! candidate offsets; decoding a short window around each candidate confirms
//! or drops it.
//!
//! Instruction boundaries are not self-describing: a window decoded from an
//! earlier byte may fall out of step with the real instruction stream, so a
//! candidate can be missed or attributed to a neighbouring instruction.
use crate::decoder::{
    decoding, insns_view, Arch, DecodedInsn, Disassembler, InsnOperand, InsnView, GROUP_CALL, GROUP_JUMP,
};
use crate::listing::{format_listing_line, listing_line};
use crate::value_scan::copy_window;
use vstd::prelude::*;
use vstd::string::*;

verus! {

/// How an instruction refers to the target. `DataRef` is part of the result
/// schema but is not produced by the scan.
#[derive(Clone, Copy, Debug, PartialEq, Eq, Structural)]
pub enum XrefType {
    Call,
    Jump,
    Indirect,
    DataRef,
}

/// The name of a reference kind.
pub open spec fn xref_name(t: XrefType) -> Seq<char> {
    match t {
        XrefType::Call => seq!['c', 'a', 'l', 'l'],
        XrefType::Jump => seq!['j', 'u', 'm', 'p'],
        XrefType::Indirect => seq!['i', 'n', 'd', 'i', 'r', 'e', 'c', 't'],
        XrefType::DataRef => seq!['d', 'a', 't', 'a', '_', 'r', 'e', 'f'],
    }
}

impl XrefType {
    /// The lowercase name of the kind: `call`, `jump`, `indirect` or
    /// `data_ref`.
    pub fn to_string(&self) -> (r: &'static str)
        ensures
            r@ == xref_name(*self),
    {
        proof {
            reveal_strlit("call");
            reveal_strlit("jump");
            reveal_strlit("indirect");
            reveal_strlit("data_ref");
        }
        let r = match self {
            XrefType::Call => "call",
            XrefType::Jump => "jump",
            XrefType::Indirect => "indirect",
            XrefType::DataRef => "data_ref",
        };
        assert(r@ =~= xref_name(*self));
        r
    }
}

/// A confirmed reference: the referring instruction's address, the kind of
/// reference, its text (`mnemonic operands`) and a listing of the decoded
/// window around it.
#[derive(Clone, Debug)]
pub struct XrefResult {
    pub address: u64,
    pub xref_type: XrefType,
    pub instruction: String,
    pub context: Vec<String>,
}

/// A cross-reference result as mathematical data.
pub ghost struct XrefView {
    pub address: u64,
    pub xref_type: XrefType,
    pub instruction: Seq<char>,
    pub context: Seq<Seq<char>>,
}

impl View for XrefResult {
    type V = XrefView;

    open spec fn view(&self) -> XrefView {
        XrefView {
            address: self.address,
            xref_type: self.xref_type,
            instruction: self.instruction@,
            context: self.context@.map_values(|s: String| s@),
        }
    }
}

/// Cross-reference results as mathematical data.
pub open spec fn xrefs_view(v: Seq<XrefResult>) -> Seq<XrefView> {
    v.map_values(|x: XrefResult| x@)
}

/// The target of a relative operand: the end of the instruction plus the
/// immediate, with wrapping arithmetic.
pub open spec fn relative_target(insn: InsnView, v: i64) -> u64 {
    insn.address.wrapping_add(insn.bytes.len() as u64).wrapping_add(v as u64)
}

/// The first operand, from index `i` on, that refers to the target: an
/// immediate equal to it, directly or as a relative displacement, in a call or
/// jump; or, when indirect references are wanted, a memory operand whose
/// displacement equals it.
pub open spec fn operand_reference(
    insn: InsnView,
    ops: Seq<InsnOperand>,
    i: nat,
    is_call: bool,
    is_jump: bool,
    target: u64,
    include_indirect: bool,
) -> Option<XrefType>
    decreases ops.len() - i,
{
    if i >= ops.len() {
        None
    } else {
        match ops[i as int] {
            InsnOperand::Imm(v) => if (v as u64 == target || relative_target(insn, v) == target) && (is_call
                || is_jump) {
                Some(
                    if is_call {
                        XrefType::Call
                    } else {
                        XrefType::Jump
                    },
                )
            } else {
                operand_reference(insn, ops, i + 1, is_call, is_jump, target, include_indirect)
            },
            InsnOperand::Mem(d) => if include_indirect && d as u64 == target {
                Some(XrefType::Indirect)
            } else {
                operand_reference(insn, ops, i + 1, is_call, is_jump, target, include_indirect)
            },
            InsnOperand::Other => operand_reference(insn, ops, i + 1, is_call, is_jump, target, include_indirect),
        }
    }
}

/// How a decoded instruction refers to the target, if it does. Without x86
/// details it does not; a jump does not when jumps are not wanted.
pub open spec fn reference_kind(insn: InsnView, target: u64, include_jumps: bool, include_indirect: bool) -> Option<
    XrefType,
> {
    match insn.detail {
        None => None,
        Some(d) => {
            let is_call = d.groups.contains(GROUP_CALL);
            let is_jump = d.groups.contains(GROUP_JUMP);
            if is_jump && !include_jumps {
                None
            } else {
                operand_reference(insn, d.operands, 0, is_call, is_jump, target, include_indirect)
            }
        },
    }
}

fn contains_byte(v: &Vec<u8>, b: u8) -> (r: bool)
    ensures
        r == v@.contains(b),
{
    let mut i: usize = 0;
    while i < v.len()
        invariant
            i <= v@.len(),
            forall|k: int| 0 <= k < i ==> v@[k] != b,
        decreases v@.len() - i,
    {
        if v[i] == b {
            assert(v@[i as int] == b);
            return true;
        }
        i = i + 1;
    }
    false
}

/// Whether the instruction refers to `target_addr`, and how: a call or jump
/// whose immediate is the target, directly or as a displacement from the
/// instruction's end; or, with `include_indirect`, a memory operand whose
/// displacement is the target. The displacement test does not read memory:
/// it approximates a reference through a pointer table.
pub fn is_reference_to(insn: &DecodedInsn, target_addr: u64, include_jumps: bool, include_indirect: bool) -> (r:
    Option<XrefType>)
    ensures
        r == reference_kind(insn@, target_addr, include_jumps, include_indirect),
{
    let detail = match &insn.detail {
        Some(d) => d,
        None => return None,
    };
    let is_call = contains_byte(&detail.groups, GROUP_CALL);
    let is_jump = contains_byte(&detail.groups, GROUP_JUMP);
    if is_jump && !include_jumps {
        return None;
    }
    let size = insn.bytes.len() as u64;
    let mut i: usize = 0;
    while i < detail.operands.len()
        invariant
            insn.detail == Some(*detail),
            is_call == detail.groups@.contains(GROUP_CALL),
            is_jump == detail.groups@.contains(GROUP_JUMP),
            !is_jump || include_jumps,
            size == insn.bytes@.len() as u64,
            i <= detail.operands@.len(),
            reference_kind(insn@, target_addr, include_jumps, include_indirect) == operand_reference(
                insn@,
                detail.operands@,
                i as nat,
                is_call,
                is_jump,
                target_addr,
                include_indirect,
            ),
        decreases detail.operands@.len() - i,
    {
        match detail.operands[i] {
            InsnOperand::Imm(v) => {
                let raw = #[verifier::truncate]
                (v as u64);
                let relative = insn.address.wrapping_add(size).wrapping_add(raw);
                if (raw == target_addr || relative == target_addr) && (is_call || is_jump) {
                    return Some(
                        if is_call {
                            XrefType::Call
                        } else {
                            XrefType::Jump
                        },
                    );
                }
            },
            InsnOperand::Mem(d) => {
                if include_indirect && #[verifier::truncate]
                (d as u64) == target_addr {
                    return Some(XrefType::Indirect);
                }
            },
            InsnOperand::Other => {},
        }
        i = i + 1;
    }
    None
}

/// The opcode `first`, followed by `second` when one is given, starts at `i`.
pub open spec fn opcode_at(buf: Seq<u8>, i: int, first: u8, second: Option<u8>) -> bool {
    buf[i] == first && (second matches Some(s) ==> buf[i + 1] == s)
}

/// The offsets `i < n` where the opcode starts, ascending.
pub open spec fn opcode_offsets(buf: Seq<u8>, first: u8, second: Option<u8>, n: nat) -> Seq<usize>
    decreases n,
{
    if n == 0 {
        seq![]
    } else {
        let prev = opcode_offsets(buf, first, second, (n - 1) as nat);
        if opcode_at(buf, n - 1, first, second) {
            prev.push((n - 1) as usize)
        } else {
            prev
        }
    }
}

/// The number of offsets `o` with `o + width <= len`.
pub open spec fn scan_limit(len: nat, width: nat) -> nat {
    if len >= width {
        (len - width + 1) as nat
    } else {
        0
    }
}

/// The candidate offsets: every `E8` (direct call) with room for a 5-byte
/// instruction; then, with jumps, every such `E9` (direct jump); then, with
/// indirect references, every `FF 15` (call through memory) with room for a
/// 6-byte instruction.
pub open spec fn candidates(buf: Seq<u8>, include_jumps: bool, include_indirect: bool) -> Seq<usize> {
    opcode_offsets(buf, 0xE8, None, scan_limit(buf.len(), 5)) + (if include_jumps {
        opcode_offsets(buf, 0xE9, None, scan_limit(buf.len(), 5))
    } else {
        seq![]
    }) + (if include_indirect {
        opcode_offsets(buf, 0xFF, Some(0x15u8), scan_limit(buf.len(), 6))
    } else {
        seq![]
    })
}

proof fn lemma_opcode_offsets_below(buf: Seq<u8>, first: u8, second: Option<u8>, n: nat)
    requires
        n <= usize::MAX,
    ensures
        forall|j: int|
            0 <= j < opcode_offsets(buf, first, second, n).len() ==> #[trigger] opcode_offsets(
                buf,
                first,
                second,
                n,
            )[j] < n,
    decreases n,
{
    if n > 0 {
        let m = (n - 1) as nat;
        lemma_opcode_offsets_below(buf, first, second, m);
        let prev = opcode_offsets(buf, first, second, m);
        let all = opcode_offsets(buf, first, second, n);
        assert(((n - 1) as usize) as int == n - 1);
        assert forall|j: int| 0 <= j < all.len() implies #[trigger] all[j] < n by {
            if j < prev.len() {
                assert(all[j] == prev[j]);
            }
        }
    }
}

/// Every candidate lies inside the buffer.
proof fn lemma_candidates_in_buffer(buf: Seq<u8>, include_jumps: bool, include_indirect: bool)
    requires
        buf.len() <= usize::MAX,
    ensures
        forall|j: int|
            0 <= j < candidates(buf, include_jumps, include_indirect).len() ==> #[trigger] candidates(
                buf,
                include_jumps,
                include_indirect,
            )[j] < buf.len(),
{
    let a = opcode_offsets(buf, 0xE8, None, scan_limit(buf.len(), 5));
    let b = opcode_offsets(buf, 0xE9, None, scan_limit(buf.len(), 5));
    let c = opcode_offsets(buf, 0xFF, Some(0x15u8), scan_limit(buf.len(), 6));
    lemma_opcode_offsets_below(buf, 0xE8, None, scan_limit(buf.len(), 5));
    lemma_opcode_offsets_below(buf, 0xE9, None, scan_limit(buf.len(), 5));
    lemma_opcode_offsets_below(buf, 0xFF, Some(0x15u8), scan_limit(buf.len(), 6));
    let all = candidates(buf, include_jumps, include_indirect);
    let ab = a + (if include_jumps { b } else { seq![] });
    assert forall|j: int| 0 <= j < all.len() implies #[trigger] all[j] < buf.len() by {
        if j < ab.len() {
            if j >= a.len() {
                assert(ab[j] == b[j - a.len()]);
            }
        } else {
            assert(all[j] == c[j - ab.len()]);
        }
    }
}

fn push_opcode_offsets(buffer: &[u8], first: u8, second: Option<u8>, n: usize, out: &mut Vec<usize>)
    requires
        n == 0 || n + 2 <= buffer@.len(),
    ensures
        final(out)@ == old(out)@ + opcode_offsets(buffer@, first, second, n as nat),
{
    let ghost start = out@;
    let mut i: usize = 0;
    assert(start =~= start + opcode_offsets(buffer@, first, second, 0));
    while i < n
        invariant
            n == 0 || n + 2 <= buffer@.len(),
            i <= n,
            out@ == start + opcode_offsets(buffer@, first, second, i as nat),
        decreases n - i,
    {
        let hit = buffer[i] == first && match second {
            Some(s) => buffer[i + 1] == s,
            None => true,
        };
        if hit {
            out.push(i);
        }
        i = i + 1;
        assert(out@ =~= start + opcode_offsets(buffer@, first, second, i as nat));
    }
}

/// The candidate offsets of the buffer, by raw opcode bytes alone.
pub fn find_potential_call_offsets(buffer: &[u8], include_jumps: bool, include_indirect: bool) -> (r: Vec<usize>)
    ensures
        r@ == candidates(buffer@, include_jumps, include_indirect),
{
    let len = buffer.len();
    let limit5: usize = if len >= 5 { len - 4 } else { 0 };
    let limit6: usize = if len >= 6 { len - 5 } else { 0 };
    let mut offsets: Vec<usize> = Vec::new();
    push_opcode_offsets(buffer, 0xE8, None, limit5, &mut offsets);
    if include_jumps {
        push_opcode_offsets(buffer, 0xE9, None, limit5, &mut offsets);
    }
    if include_indirect {
        push_opcode_offsets(buffer, 0xFF, Some(0x15), limit6, &mut offsets);
    }
    assert(offsets@ =~= candidates(buffer@, include_jumps, include_indirect));
    offsets
}


/// First byte of the decoding window around a candidate: 15 bytes before it,
/// clipped to the buffer.
pub open spec fn chunk_start(o: int) -> int {
    if o > 15 {
        o - 15
    } else {
        0
    }
}

/// End of the decoding window around a candidate: 15 bytes after it, clipped
/// to the buffer.
pub open spec fn chunk_end(len: int, o: int) -> int {
    if o + 15 < len {
        o + 15
    } else {
        len
    }
}

/// The instruction's bytes cover offset `o` of the region at `base`.
pub open spec fn spans_offset(insn: InsnView, base: u64, o: int) -> bool {
    base <= insn.address && insn.address - base <= o < insn.address - base + insn.bytes.len()
}

/// The text of an instruction: mnemonic, a space, operands.
pub open spec fn instruction_text(insn: InsnView) -> Seq<char> {
    insn.mnemonic + seq![' '] + insn.op_str
}

/// First byte of the listing window: `15 * context_count` bytes before the
/// reference, clipped to the buffer.
pub open spec fn context_start(o: int, cc: nat) -> int {
    if o > cc * 15 {
        o - cc * 15
    } else {
        0
    }
}

/// End of the listing window: `15 + 15 * context_count` bytes after the
/// reference, clipped to the buffer.
pub open spec fn context_end(len: int, o: int, cc: nat) -> int {
    if o + 15 + cc * 15 < len {
        o + 15 + cc * 15
    } else {
        len
    }
}

/// The listing of every instruction decoded from the listing window.
pub open spec fn context_lines(arch: Arch, buf: Seq<u8>, o: int, cc: nat, base: u64) -> Seq<Seq<char>> {
    let s = context_start(o, cc);
    match decoding(arch, buf.subrange(s, context_end(buf.len() as int, o, cc)), (base + s) as u64) {
        None => seq![],
        Some(insns) => insns.map_values(|i: InsnView| listing_line(i)),
    }
}

/// The index of the first decoded instruction, from `k` on, whose bytes
/// cover offset `o`.
pub open spec fn owner_index(insns: Seq<InsnView>, base: u64, o: int, k: nat) -> Option<int>
    decreases insns.len() - k,
{
    if k >= insns.len() {
        None
    } else if spans_offset(insns[k as int], base, o) {
        Some(k as int)
    } else {
        owner_index(insns, base, o, k + 1)
    }
}

/// The result of a candidate in its decoded window: the first instruction
/// covering the candidate, when it starts exactly there and refers to the
/// target. A candidate inside another instruction is dropped.
pub open spec fn owner_hits(
    insns: Seq<InsnView>,
    base: u64,
    o: int,
    target: u64,
    include_jumps: bool,
    include_indirect: bool,
    ctx: Seq<Seq<char>>,
) -> Seq<XrefView> {
    match owner_index(insns, base, o, 0) {
        None => seq![],
        Some(k) => {
            let insn = insns[k];
            let kind = reference_kind(insn, target, include_jumps, include_indirect);
            if insn.address == base + o && kind is Some {
                seq![
                    XrefView {
                        address: insn.address,
                        xref_type: kind->Some_0,
                        instruction: instruction_text(insn),
                        context: ctx,
                    },
                ]
            } else {
                seq![]
            }
        },
    }
}

/// The results of one candidate: none when its window does not decode;
/// otherwise those of its owning instruction.
pub open spec fn candidate_xrefs(
    arch: Arch,
    buf: Seq<u8>,
    base: u64,
    o: int,
    target: u64,
    include_jumps: bool,
    include_indirect: bool,
    cc: nat,
) -> Seq<XrefView> {
    let s = chunk_start(o);
    match decoding(arch, buf.subrange(s, chunk_end(buf.len() as int, o)), (base + s) as u64) {
        None => seq![],
        Some(insns) => owner_hits(
            insns,
            base,
            o,
            target,
            include_jumps,
            include_indirect,
            context_lines(arch, buf, o, cc, base),
        ),
    }
}

/// The results of the candidates, in candidate order.
pub open spec fn xrefs_over(
    arch: Arch,
    buf: Seq<u8>,
    base: u64,
    cands: Seq<usize>,
    target: u64,
    include_jumps: bool,
    include_indirect: bool,
    cc: nat,
) -> Seq<XrefView>
    decreases cands.len(),
{
    if cands.len() == 0 {
        seq![]
    } else {
        xrefs_over(arch, buf, base, cands.drop_last(), target, include_jumps, include_indirect, cc)
            + candidate_xrefs(arch, buf, base, cands.last() as int, target, include_jumps, include_indirect, cc)
    }
}

/// All results of a region's buffer.
pub open spec fn region_xrefs(
    arch: Arch,
    buf: Seq<u8>,
    base: u64,
    target: u64,
    include_jumps: bool,
    include_indirect: bool,
    cc: nat,
) -> Seq<XrefView> {
    xrefs_over(arch, buf, base, candidates(buf, include_jumps, include_indirect), target, include_jumps, include_indirect, cc)
}

/// The listing of the window around a reference at `ref_offset`: every
/// instruction decoded from `15 * context_count` bytes before it to
/// `15 + 15 * context_count` bytes after it, clipped to the buffer. The whole
/// window is listed, which may hold more than `context_count` instructions on
/// either side; a window that does not decode gives an empty listing.
pub fn get_instruction_context(
    buffer: &[u8],
    ref_offset: usize,
    context_count: usize,
    base_addr: u64,
    dis: &Disassembler,
) -> (r: Vec<String>)
    requires
        ref_offset < buffer@.len(),
        base_addr + buffer@.len() <= u64::MAX,
    ensures
        r@.map_values(|s: String| s@) == context_lines(
            dis.arch(),
            buffer@,
            ref_offset as int,
            context_count as nat,
            base_addr,
        ),
{
    let len = buffer.len();
    let span: usize = if context_count > len / 15 {
        len
    } else {
        context_count * 15
    };
    proof {
        let cc = context_count as int;
        if context_count > len / 15 {
            assert(cc * 15 >= len) by (nonlinear_arith)
                requires
                    cc > len / 15,
            ;
        } else {
            assert(cc * 15 <= len) by (nonlinear_arith)
                requires
                    cc <= len / 15,
            ;
        }
    }
    let start: usize = if ref_offset > span {
        ref_offset - span
    } else {
        0
    };
    let end: usize = if span < len - ref_offset && 15 < len - ref_offset - span {
        ref_offset + 15 + span
    } else {
        len
    };
    assert(start == context_start(ref_offset as int, context_count as nat));
    assert(end == context_end(len as int, ref_offset as int, context_count as nat));
    let code = copy_window(buffer, start, end - start);
    let mut context: Vec<String> = Vec::new();
    let insns = match dis.decode(code.as_slice(), base_addr + start as u64) {
        Some(v) => v,
        None => {
            assert(context@.map_values(|s: String| s@) =~= seq![]);
            return context;
        },
    };
    let ghost want = insns_view(insns@).map_values(|i: InsnView| listing_line(i));
    let mut k: usize = 0;
    while k < insns.len()
        invariant
            k <= insns@.len(),
            want == insns_view(insns@).map_values(|i: InsnView| listing_line(i)),
            context@.len() == k,
            forall|j: int| 0 <= j < k ==> (#[trigger] context@[j])@ == want[j],
        decreases insns@.len() - k,
    {
        let insn = &insns[k];
        let line = format_listing_line(insn.address, insn.bytes.as_slice(), insn.mnemonic.as_str(), insn.op_str.as_str());
        context.push(line);
        k = k + 1;
    }
    assert(context@.map_values(|s: String| s@) =~= want);
    context
}

/// Appends the results of the candidate at `offset`.
fn collect_candidate_xrefs(
    dis: &Disassembler,
    buffer: &[u8],
    base_addr: u64,
    offset: usize,
    target_addr: u64,
    include_jumps: bool,
    include_indirect: bool,
    context_count: usize,
    out: &mut Vec<XrefResult>,
)
    requires
        offset < buffer@.len(),
        base_addr + buffer@.len() <= u64::MAX,
    ensures
        xrefs_view(final(out)@) == xrefs_view(old(out)@) + candidate_xrefs(
            dis.arch(),
            buffer@,
            base_addr,
            offset as int,
            target_addr,
            include_jumps,
            include_indirect,
            context_count as nat,
        ),
{
    let ghost start_out = out@;
    let len = buffer.len();
    let chunk_lo: usize = if offset > 15 {
        offset - 15
    } else {
        0
    };
    let chunk_hi: usize = if 15 < len - offset {
        offset + 15
    } else {
        len
    };
    let chunk = copy_window(buffer, chunk_lo, chunk_hi - chunk_lo);
    let insns = match dis.decode(chunk.as_slice(), base_addr + chunk_lo as u64) {
        Some(v) => v,
        None => {
            assert(xrefs_view(out@) =~= xrefs_view(start_out) + seq![]);
            return;
        },
    };
    let ghost iv = insns_view(insns@);
    let ghost ctx = context_lines(dis.arch(), buffer@, offset as int, context_count as nat, base_addr);
    let ghost want = owner_hits(iv, base_addr, offset as int, target_addr, include_jumps, include_indirect, ctx);
    let mut k: usize = 0;
    while k < insns.len()
        invariant
            k <= insns@.len(),
            iv == insns_view(insns@),
            offset < buffer@.len(),
            base_addr + buffer@.len() <= u64::MAX,
            out@ == start_out,
            old(out)@ == start_out,
            ctx == context_lines(dis.arch(), buffer@, offset as int, context_count as nat, base_addr),
            want == owner_hits(iv, base_addr, offset as int, target_addr, include_jumps, include_indirect, ctx),
            want == candidate_xrefs(
                dis.arch(),
                buffer@,
                base_addr,
                offset as int,
                target_addr,
                include_jumps,
                include_indirect,
                context_count as nat,
            ),
            owner_index(iv, base_addr, offset as int, 0) == owner_index(iv, base_addr, offset as int, k as nat),
        decreases insns@.len() - k,
    {
        let insn = &insns[k];
        assert(iv[k as int] == insn@);
        if insn.address >= base_addr && insn.address - base_addr <= offset as u64 && offset - ((insn.address
            - base_addr) as usize) < insn.bytes.len() {
            assert(spans_offset(iv[k as int], base_addr, offset as int));
            assert(owner_index(iv, base_addr, offset as int, 0) == Some(k as int));
            if insn.address - base_addr == offset as u64 {
                match is_reference_to(insn, target_addr, include_jumps, include_indirect) {
                    Some(t) => {
                        proof {
                            reveal_strlit(" ");
                        }
                        let context = get_instruction_context(buffer, offset, context_count, base_addr, dis);
                        let mut text = insn.mnemonic.clone();
                        text.append(" ");
                        text.append(insn.op_str.as_str());
                        let r = XrefResult { address: insn.address, xref_type: t, instruction: text, context };
                        assert(r@.instruction == instruction_text(iv[k as int]));
                        assert(want == seq![r@]);
                        out.push(r);
                        assert(xrefs_view(out@) =~= xrefs_view(start_out) + want);
                        return;
                    },
                    None => {},
                }
            }
            assert(xrefs_view(out@) =~= xrefs_view(start_out) + want);
            return;
        }
        k = k + 1;
    }
    assert(xrefs_view(out@) =~= xrefs_view(start_out) + want);
}

/// Scans a region's buffer with a decoder: the results of every candidate,
/// in candidate order.
pub fn scan_region_with(
    dis: &Disassembler,
    buffer: &[u8],
    region_addr: u64,
    target_addr: u64,
    include_jumps: bool,
    include_indirect: bool,
    context_count: usize,
) -> (r: Vec<XrefResult>)
    requires
        region_addr + buffer@.len() <= u64::MAX,
    ensures
        xrefs_view(r@) == region_xrefs(
            dis.arch(),
            buffer@,
            region_addr,
            target_addr,
            include_jumps,
            include_indirect,
            context_count as nat,
        ),
{
    let _ = buffer.len();
    let offsets = find_potential_call_offsets(buffer, include_jumps, include_indirect);
    let ghost cands = offsets@;
    proof {
        lemma_candidates_in_buffer(buffer@, include_jumps, include_indirect);
    }
    let mut results: Vec<XrefResult> = Vec::new();
    let mut i: usize = 0;
    assert(offsets@.subrange(0, 0) =~= seq![]);
    assert(xrefs_view(results@) =~= seq![]);
    while i < offsets.len()
        invariant
            i <= offsets@.len(),
            cands == offsets@,
            cands == candidates(buffer@, include_jumps, include_indirect),
            region_addr + buffer@.len() <= u64::MAX,
            forall|j: int| 0 <= j < cands.len() ==> #[trigger] cands[j] < buffer@.len(),
            xrefs_view(results@) == xrefs_over(
                dis.arch(),
                buffer@,
                region_addr,
                cands.subrange(0, i as int),
                target_addr,
                include_jumps,
                include_indirect,
                context_count as nat,
            ),
        decreases offsets@.len() - i,
    {
        let offset = offsets[i];
        collect_candidate_xrefs(
            dis,
            buffer,
            region_addr,
            offset,
            target_addr,
            include_jumps,
            include_indirect,
            context_count,
            &mut results,
        );
        proof {
            let sub = cands.subrange(0, i + 1);
            assert(sub.drop_last() =~= cands.subrange(0, i as int));
            assert(sub.last() == offset);
        }
        i = i + 1;
    }
    assert(cands.subrange(0, i as int) =~= cands);
    results
}

/// Scans a region's buffer for references to `target_addr` with a decoder
/// for `arch`: the results of every candidate, in candidate order.
pub fn scan_region_for_xrefs(
    buffer: &[u8],
    region_addr: u64,
    target_addr: u64,
    include_jumps: bool,
    include_indirect: bool,
    context_count: usize,
    arch: Arch,
) -> (r: Vec<XrefResult>)
    requires
        region_addr + buffer@.len() <= u64::MAX,
    ensures
        xrefs_view(r@) == region_xrefs(
            arch,
            buffer@,
            region_addr,
            target_addr,
            include_jumps,
            include_indirect,
            context_count as nat,
        ),
{
    match Disassembler::new(arch) {
        Ok(dis) => scan_region_with(
            &dis,
            buffer,
            region_addr,
            target_addr,
            include_jumps,
            include_indirect,
            context_count,
        ),
        Err(_) => Vec::new(),
    }
}


proof fn lemma_opcode_offsets_contain(buf: Seq<u8>, first: u8, second: Option<u8>, n: nat, o: int)
    requires
        0 <= o < n,
        n <= usize::MAX,
        opcode_at(buf, o, first, second),
    ensures
        exists|idx: int|
            0 <= idx < opcode_offsets(buf, first, second, n).len() && #[trigger] opcode_offsets(
                buf,
                first,
                second,
                n,
            )[idx] == o,
    decreases n,
{
    let m = (n - 1) as nat;
    let all = opcode_offsets(buf, first, second, n);
    if o == n - 1 {
        assert(all[all.len() - 1] == o);
    } else {
        lemma_opcode_offsets_contain(buf, first, second, m, o);
        let prev = opcode_offsets(buf, first, second, m);
        let idx = choose|idx: int| 0 <= idx < prev.len() && #[trigger] prev[idx] == o;
        assert(all[idx] == prev[idx]);
    }
}

proof fn lemma_owner_index(insns: Seq<InsnView>, base: u64, o: int, i: nat, k: int)
    requires
        i <= k < insns.len(),
        spans_offset(insns[k], base, o),
        forall|j: int| i <= j < k ==> !spans_offset(#[trigger] insns[j], base, o),
    ensures
        owner_index(insns, base, o, i) == Some(k),
    decreases k - i,
{
    if i < k {
        lemma_owner_index(insns, base, o, i + 1, k);
    }
}

proof fn lemma_xrefs_over_contain(
    arch: Arch,
    buf: Seq<u8>,
    base: u64,
    cands: Seq<usize>,
    target: u64,
    include_jumps: bool,
    include_indirect: bool,
    cc: nat,
    idx: int,
    m: int,
)
    requires
        0 <= idx < cands.len(),
        0 <= m < candidate_xrefs(arch, buf, base, cands[idx] as int, target, include_jumps, include_indirect, cc).len(),
    ensures
        exists|p: int|
            0 <= p < xrefs_over(arch, buf, base, cands, target, include_jumps, include_indirect, cc).len()
                && #[trigger] xrefs_over(arch, buf, base, cands, target, include_jumps, include_indirect, cc)[p]
                == candidate_xrefs(arch, buf, base, cands[idx] as int, target, include_jumps, include_indirect, cc)[m],
    decreases cands.len(),
{
    let rest = cands.drop_last();
    let head = xrefs_over(arch, buf, base, rest, target, include_jumps, include_indirect, cc);
    let all = xrefs_over(arch, buf, base, cands, target, include_jumps, include_indirect, cc);
    if idx == cands.len() - 1 {
        assert(all[head.len() + m] == candidate_xrefs(
            arch,
            buf,
            base,
            cands[idx] as int,
            target,
            include_jumps,
            include_indirect,
            cc,
        )[m]);
    } else {
        assert(rest[idx] == cands[idx]);
        lemma_xrefs_over_contain(arch, buf, base, rest, target, include_jumps, include_indirect, cc, idx, m);
        let p = choose|p: int|
            0 <= p < head.len() && #[trigger] head[p] == candidate_xrefs(
                arch,
                buf,
                base,
                rest[idx] as int,
                target,
                include_jumps,
                include_indirect,
                cc,
            )[m];
        assert(all[p] == head[p]);
    }
}

/// A relative call is reported. Let the buffer hold `E8` at offset `o`, with
/// room for a 5-byte instruction, and let the window decoded around `o` hold
/// at index `k` an instruction at `base + o`, no earlier instruction of the
/// window covering `o`, that spans 5 bytes, is a call and not a jump, and has
/// the single immediate operand `v`, where `v` is the target itself or the
/// displacement from the instruction's end to it. Then the region's results
/// hold a `Call` at `base + o`.
pub proof fn lemma_relative_call_reported(
    arch: Arch,
    buf: Seq<u8>,
    base: u64,
    o: int,
    target: u64,
    include_jumps: bool,
    include_indirect: bool,
    cc: nat,
    k: int,
    v: i64,
)
    requires
        buf.len() <= usize::MAX,
        base + buf.len() <= u64::MAX,
        0 <= o,
        o + 5 <= buf.len(),
        buf[o] == 0xE8,
        decoding(arch, buf.subrange(chunk_start(o), chunk_end(buf.len() as int, o)), (base + chunk_start(o)) as u64)
            matches Some(insns) && 0 <= k < insns.len() && (forall|j: int|
            0 <= j < k ==> !spans_offset(#[trigger] insns[j], base, o)) && {
            let i = insns[k];
            &&& i.address == base + o
            &&& i.bytes.len() == 5
            &&& i.detail matches Some(d) && d.groups.contains(GROUP_CALL) && !d.groups.contains(GROUP_JUMP)
                && d.operands == seq![InsnOperand::Imm(v)]
            &&& (v as u64 == target || relative_target(i, v) == target)
        },
    ensures
        exists|p: int|
            0 <= p < region_xrefs(arch, buf, base, target, include_jumps, include_indirect, cc).len() && {
                let h = #[trigger] region_xrefs(arch, buf, base, target, include_jumps, include_indirect, cc)[p];
                &&& h.address == base + o
                &&& h.xref_type == XrefType::Call
            },
{
    let len = buf.len();
    let e8 = opcode_offsets(buf, 0xE8, None, scan_limit(len, 5));
    lemma_opcode_offsets_contain(buf, 0xE8, None, scan_limit(len, 5), o);
    let idx = choose|idx: int| 0 <= idx < e8.len() && #[trigger] e8[idx] == o;
    let cands = candidates(buf, include_jumps, include_indirect);
    assert(cands[idx] == e8[idx]);
    let insns = decoding(arch, buf.subrange(chunk_start(o), chunk_end(len as int, o)), (base + chunk_start(o)) as u64)->Some_0;
    let i = insns[k];
    let d = i.detail->Some_0;
    assert(d.operands[0] == InsnOperand::Imm(v));
    assert(operand_reference(i, d.operands, 0, true, false, target, include_indirect) == Some(XrefType::Call));
    assert(reference_kind(i, target, include_jumps, include_indirect) == Some(XrefType::Call));
    lemma_owner_index(insns, base, o, 0, k);
    let hits = candidate_xrefs(arch, buf, base, o, target, include_jumps, include_indirect, cc);
    assert(hits.len() == 1 && hits[0].address == base + o && hits[0].xref_type == XrefType::Call);
    lemma_xrefs_over_contain(arch, buf, base, cands, target, include_jumps, include_indirect, cc, idx, 0);
    let all = region_xrefs(arch, buf, base, target, include_jumps, include_indirect, cc);
    let p = choose|p: int|
        0 <= p < all.len() && #[trigger] all[p] == candidate_xrefs(
            arch,
            buf,
            base,
            cands[idx] as int,
            target,
            include_jumps,
            include_indirect,
            cc,
        )[0];
    assert(cands[idx] as int == o);
    assert(all[p].address == base + o && all[p].xref_type == XrefType::Call);
}

proof fn lemma_opcode_offsets_sorted(buf: Seq<u8>, first: u8, second: Option<u8>, n: nat)
    requires
        n <= usize::MAX,
    ensures
        forall|i: int, j: int|
            0 <= i < j < opcode_offsets(buf, first, second, n).len() ==> #[trigger] opcode_offsets(
                buf,
                first,
                second,
                n,
            )[i] < #[trigger] opcode_offsets(buf, first, second, n)[j],
        forall|i: int|
            0 <= i < opcode_offsets(buf, first, second, n).len() ==> opcode_at(
                buf,
                #[trigger] opcode_offsets(buf, first, second, n)[i] as int,
                first,
                second,
            ),
    decreases n,
{
    if n > 0 {
        let m = (n - 1) as nat;
        lemma_opcode_offsets_sorted(buf, first, second, m);
        lemma_opcode_offsets_below(buf, first, second, m);
        let prev = opcode_offsets(buf, first, second, m);
        let all = opcode_offsets(buf, first, second, n);
        assert(((n - 1) as usize) as int == n - 1);
        assert forall|i: int| 0 <= i < prev.len() implies all[i] == prev[i] by {}
    }
}

/// No offset occurs twice among the candidates.
proof fn lemma_candidates_distinct(buf: Seq<u8>, include_jumps: bool, include_indirect: bool)
    requires
        buf.len() <= usize::MAX,
    ensures
        forall|i: int, j: int|
            0 <= i < j < candidates(buf, include_jumps, include_indirect).len() ==> #[trigger] candidates(
                buf,
                include_jumps,
                include_indirect,
            )[i] != #[trigger] candidates(buf, include_jumps, include_indirect)[j],
{
    let a = opcode_offsets(buf, 0xE8, None, scan_limit(buf.len(), 5));
    let b = opcode_offsets(buf, 0xE9, None, scan_limit(buf.len(), 5));
    let c = opcode_offsets(buf, 0xFF, Some(0x15u8), scan_limit(buf.len(), 6));
    lemma_opcode_offsets_sorted(buf, 0xE8, None, scan_limit(buf.len(), 5));
    lemma_opcode_offsets_sorted(buf, 0xE9, None, scan_limit(buf.len(), 5));
    lemma_opcode_offsets_sorted(buf, 0xFF, Some(0x15u8), scan_limit(buf.len(), 6));
    let ab = a + (if include_jumps { b } else { seq![] });
    let all = candidates(buf, include_jumps, include_indirect);
    assert(all == ab + (if include_indirect { c } else { seq![] }));
    assert forall|i: int| 0 <= i < all.len() implies buf[#[trigger] all[i] as int] == (if i < a.len() {
        0xE8u8
    } else if i < ab.len() {
        0xE9u8
    } else {
        0xFFu8
    }) by {
        if i < a.len() {
            assert(all[i] == a[i]);
        } else if i < ab.len() {
            assert(all[i] == b[i - a.len()]);
        } else {
            assert(all[i] == c[i - ab.len()]);
        }
    }
    assert forall|i: int, j: int| 0 <= i < j < all.len() implies #[trigger] all[i] != #[trigger] all[j] by {
        if j < a.len() {
            assert(all[i] == a[i] && all[j] == a[j]);
        } else if i >= a.len() && j < ab.len() {
            assert(all[i] == b[i - a.len()] && all[j] == b[j - a.len()]);
        } else if i >= ab.len() {
            assert(all[i] == c[i - ab.len()] && all[j] == c[j - ab.len()]);
        } else {
            assert(buf[all[i] as int] != buf[all[j] as int]);
        }
    }
}

/// A candidate yields at most one result, at its own address.
proof fn lemma_candidate_xrefs_at_own_address(
    arch: Arch,
    buf: Seq<u8>,
    base: u64,
    o: int,
    target: u64,
    include_jumps: bool,
    include_indirect: bool,
    cc: nat,
)
    ensures
        candidate_xrefs(arch, buf, base, o, target, include_jumps, include_indirect, cc).len() <= 1,
        forall|m: int|
            0 <= m < candidate_xrefs(arch, buf, base, o, target, include_jumps, include_indirect, cc).len()
                ==> #[trigger] candidate_xrefs(arch, buf, base, o, target, include_jumps, include_indirect, cc)[m].address
                == base + o,
{
}

proof fn lemma_xrefs_over_distinct(
    arch: Arch,
    buf: Seq<u8>,
    base: u64,
    cands: Seq<usize>,
    target: u64,
    include_jumps: bool,
    include_indirect: bool,
    cc: nat,
)
    requires
        forall|i: int, j: int| 0 <= i < j < cands.len() ==> #[trigger] cands[i] != #[trigger] cands[j],
    ensures
        forall|p: int|
            0 <= p < xrefs_over(arch, buf, base, cands, target, include_jumps, include_indirect, cc).len()
                ==> exists|i: int|
                0 <= i < cands.len() && (#[trigger] xrefs_over(
                    arch,
                    buf,
                    base,
                    cands,
                    target,
                    include_jumps,
                    include_indirect,
                    cc,
                )[p]).address == base + cands[i],
        forall|p: int, q: int|
            0 <= p < q < xrefs_over(arch, buf, base, cands, target, include_jumps, include_indirect, cc).len()
                ==> (#[trigger] xrefs_over(arch, buf, base, cands, target, include_jumps, include_indirect, cc)[p]).address
                != (#[trigger] xrefs_over(arch, buf, base, cands, target, include_jumps, include_indirect, cc)[q]).address,
    decreases cands.len(),
{
    if cands.len() > 0 {
        let rest = cands.drop_last();
        let last = cands.last();
        assert forall|i: int, j: int| 0 <= i < j < rest.len() implies #[trigger] rest[i] != #[trigger] rest[j] by {
            assert(rest[i] == cands[i] && rest[j] == cands[j]);
        }
        lemma_xrefs_over_distinct(arch, buf, base, rest, target, include_jumps, include_indirect, cc);
        lemma_candidate_xrefs_at_own_address(arch, buf, base, last as int, target, include_jumps, include_indirect, cc);
        let head = xrefs_over(arch, buf, base, rest, target, include_jumps, include_indirect, cc);
        let tail = candidate_xrefs(arch, buf, base, last as int, target, include_jumps, include_indirect, cc);
        let all = xrefs_over(arch, buf, base, cands, target, include_jumps, include_indirect, cc);
        assert(all == head + tail);
        assert forall|p: int| 0 <= p < all.len() implies exists|i: int|
            0 <= i < cands.len() && (#[trigger] all[p]).address == base + cands[i] by {
            if p < head.len() {
                assert(all[p] == head[p]);
                let i = choose|i: int| 0 <= i < rest.len() && head[p].address == base + rest[i];
                assert(rest[i] == cands[i]);
            } else {
                assert(all[p] == tail[p - head.len()]);
                assert(all[p].address == base + cands[cands.len() - 1]);
            }
        }
        assert forall|p: int, q: int| 0 <= p < q < all.len() implies (#[trigger] all[p]).address != (#[trigger] all[q]).address by {
            if q < head.len() {
                assert(all[p] == head[p] && all[q] == head[q]);
            } else {
                assert(p < head.len());
                assert(all[p] == head[p]);
                assert(all[q] == tail[q - head.len()]);
                let i = choose|i: int| 0 <= i < rest.len() && head[p].address == base + rest[i];
                assert(rest[i] == cands[i]);
                assert(cands[i] != cands[cands.len() - 1]);
            }
        }
    }
}

/// No instruction is reported twice: the results of a region have pairwise
/// distinct addresses.
pub proof fn lemma_region_xrefs_distinct(
    arch: Arch,
    buf: Seq<u8>,
    base: u64,
    target: u64,
    include_jumps: bool,
    include_indirect: bool,
    cc: nat,
)
    requires
        buf.len() <= usize::MAX,
    ensures
        forall|p: int, q: int|
            0 <= p < q < region_xrefs(arch, buf, base, target, include_jumps, include_indirect, cc).len()
                ==> (#[trigger] region_xrefs(arch, buf, base, target, include_jumps, include_indirect, cc)[p]).address
                != (#[trigger] region_xrefs(arch, buf, base, target, include_jumps, include_indirect, cc)[q]).address,
{
    lemma_candidates_distinct(buf, include_jumps, include_indirect);
    lemma_xrefs_over_distinct(
        arch,
        buf,
        base,
        candidates(buf, include_jumps, include_indirect),
        target,
        include_jumps,
        include_indirect,
        cc,
    );
}

} // verus!
