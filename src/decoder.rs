//! The instruction decoder that the cross-reference scanner consults, backed
//! by Capstone. Each decoded instruction is handed to the scanner as plain
//! values: its address, raw bytes, text and x86 operand details.
use capstone::arch::x86::{ArchMode, X86OperandType};
use capstone::arch::{ArchDetail, BuildsCapstone, DetailsArchInsn};
use capstone::Capstone;
use vstd::prelude::*;

verus! {

/// Capstone's disassembler handle, carried opaquely.
#[verifier::external_type_specification]
#[verifier::external_body]
pub struct ExCapstone(Capstone);

/// Capstone's error type, carried opaquely.
#[verifier::external_type_specification]
#[verifier::external_body]
pub struct ExCapstoneError(capstone::Error);

/// The instruction set a decoder is built for.
#[derive(Clone, Copy, Debug, PartialEq, Eq, Structural)]
pub enum Arch {
    X86_32,
    X86_64,
}

/// An x86 operand as far as reference detection needs it: an immediate, a
/// memory operand with its displacement, or anything else.
#[derive(Clone, Copy, Debug, PartialEq, Eq, Structural)]
pub enum InsnOperand {
    Imm(i64),
    Mem(i64),
    Other,
}

/// Group number Capstone gives to jump instructions.
pub const GROUP_JUMP: u8 = 1;

/// Group number Capstone gives to call instructions.
pub const GROUP_CALL: u8 = 2;

/// The x86 details of one instruction: the groups it belongs to and its
/// operands, in order.
#[derive(Clone, Debug)]
pub struct InsnDetail {
    pub groups: Vec<u8>,
    pub operands: Vec<InsnOperand>,
}

/// Instruction details as mathematical data.
pub ghost struct DetailView {
    pub groups: Seq<u8>,
    pub operands: Seq<InsnOperand>,
}

impl View for InsnDetail {
    type V = DetailView;

    open spec fn view(&self) -> DetailView {
        DetailView { groups: self.groups@, operands: self.operands@ }
    }
}

/// What a decoder reports of an instruction before details are asked for.
pub struct InsnText {
    pub address: u64,
    pub bytes: Vec<u8>,
    pub mnemonic: String,
    pub op_str: String,
}

/// Instruction text as mathematical data.
pub ghost struct InsnTextView {
    pub address: u64,
    pub bytes: Seq<u8>,
    pub mnemonic: Seq<char>,
    pub op_str: Seq<char>,
}

impl View for InsnText {
    type V = InsnTextView;

    open spec fn view(&self) -> InsnTextView {
        InsnTextView {
            address: self.address,
            bytes: self.bytes@,
            mnemonic: self.mnemonic@,
            op_str: self.op_str@,
        }
    }
}

/// A decoded instruction. `detail` is absent where the decoder gave no x86
/// details for it.
#[derive(Clone, Debug)]
pub struct DecodedInsn {
    pub address: u64,
    pub bytes: Vec<u8>,
    pub mnemonic: String,
    pub op_str: String,
    pub detail: Option<InsnDetail>,
}

/// A decoded instruction as mathematical data.
pub ghost struct InsnView {
    pub address: u64,
    pub bytes: Seq<u8>,
    pub mnemonic: Seq<char>,
    pub op_str: Seq<char>,
    pub detail: Option<DetailView>,
}

impl View for DecodedInsn {
    type V = InsnView;

    open spec fn view(&self) -> InsnView {
        InsnView {
            address: self.address,
            bytes: self.bytes@,
            mnemonic: self.mnemonic@,
            op_str: self.op_str@,
            detail: match self.detail {
                Some(d) => Some(d@),
                None => None,
            },
        }
    }
}

/// What `Capstone::disasm_all` returns for `code` placed at `address` by a
/// decoder built for `arch`: the instructions in order, or nothing when it
/// fails.
pub uninterp spec fn decoded_text(arch: Arch, code: Seq<u8>, address: u64) -> Option<Seq<InsnTextView>>;

/// What `Capstone::insn_detail` gives, as x86 details, for the `k`-th
/// instruction of that decoding.
pub uninterp spec fn decoded_detail(arch: Arch, code: Seq<u8>, address: u64, k: nat) -> Option<DetailView>;

/// The full decoding of `code` at `address`: each instruction with its
/// details.
pub open spec fn decoding(arch: Arch, code: Seq<u8>, address: u64) -> Option<Seq<InsnView>> {
    match decoded_text(arch, code, address) {
        None => None,
        Some(ts) => Some(
            Seq::new(
                ts.len(),
                |k: int|
                    InsnView {
                        address: ts[k].address,
                        bytes: ts[k].bytes,
                        mnemonic: ts[k].mnemonic,
                        op_str: ts[k].op_str,
                        detail: decoded_detail(arch, code, address, k as nat),
                    },
            ),
        ),
    }
}

/// Decoded instructions as mathematical data.
pub open spec fn insns_view(v: Seq<DecodedInsn>) -> Seq<InsnView> {
    v.map_values(|i: DecodedInsn| i@)
}

/// Builds a Capstone handle for the architecture, with instruction details
/// switched on. Relies on `CapstoneBuilder` (`x86`, `mode`, `detail`,
/// `build`): x86 support is always compiled into capstone-sys, and for the
/// 32- and 64-bit modes `build` reports no error short of running out of
/// memory.
#[verifier::external_body]
pub fn init_capstone(arch: Arch) -> (r: Result<Capstone, capstone::Error>)
    ensures
        r is Ok,
{
    match arch {
        Arch::X86_32 => Capstone::new().x86().mode(ArchMode::Mode32).detail(true).build(),
        Arch::X86_64 => Capstone::new().x86().mode(ArchMode::Mode64).detail(true).build(),
    }
}

/// A Capstone handle together with the architecture it was built for.
pub struct Disassembler {
    cs: Capstone,
    arch: Arch,
}

impl Disassembler {
    /// The architecture the handle was built for.
    pub closed spec fn arch(&self) -> Arch {
        self.arch
    }

    /// A decoder for the architecture.
    pub fn new(arch: Arch) -> (r: Result<Disassembler, capstone::Error>)
        ensures
            r matches Ok(d) && d.arch() == arch,
    {
        match init_capstone(arch) {
            Ok(cs) => Ok(Disassembler { cs, arch }),
            Err(e) => Err(e),
        }
    }

    /// Relies on `Capstone::disasm_all`, `Insn::address`, `Insn::bytes`,
    /// `Insn::mnemonic` and `Insn::op_str`: the instructions decoded from
    /// `code` placed at `address`, a missing text read as empty.
    #[verifier::external_body]
    fn disasm_text(&self, code: &[u8], address: u64) -> (r: Option<Vec<InsnText>>)
        ensures
            match r {
                Some(v) => decoded_text(self.arch, code@, address) == Some(v@.map_values(|t: InsnText| t@)),
                None => decoded_text(self.arch, code@, address) is None,
            },
    {
        let insns = self.cs.disasm_all(code, address).ok()?;
        Some(insns.iter().map(|i| InsnText {
            address: i.address(),
            bytes: i.bytes().to_vec(),
            mnemonic: i.mnemonic().unwrap_or("").to_string(),
            op_str: i.op_str().unwrap_or("").to_string(),
        }).collect())
    }

    /// Relies on `Capstone::insn_detail`, `InsnDetail::groups` and the x86
    /// operands of `InsnDetail::arch_detail`: the details of the `k`-th
    /// instruction decoded from `code` at `address`.
    #[verifier::external_body]
    fn insn_detail(&self, code: &[u8], address: u64, k: usize) -> (r: Option<InsnDetail>)
        ensures
            match r {
                Some(d) => decoded_detail(self.arch, code@, address, k as nat) == Some(d@),
                None => decoded_detail(self.arch, code@, address, k as nat) is None,
            },
    {
        let insns = self.cs.disasm_all(code, address).ok()?;
        let detail = self.cs.insn_detail(insns.as_ref().get(k)?).ok()?;
        match detail.arch_detail() {
            ArchDetail::X86Detail(x86) => Some(InsnDetail {
                groups: detail.groups().iter().map(|g| g.0).collect(),
                operands: x86.operands().map(|op| match op.op_type {
                    X86OperandType::Imm(v) => InsnOperand::Imm(v),
                    X86OperandType::Mem(m) => InsnOperand::Mem(m.disp()),
                    _ => InsnOperand::Other,
                }).collect(),
            }),
            _ => None,
        }
    }

    /// Decodes `code` placed at `address`: every instruction with its
    /// details, or `None` when decoding fails.
    pub fn decode(&self, code: &[u8], address: u64) -> (r: Option<Vec<DecodedInsn>>)
        ensures
            match r {
                Some(v) => decoding(self.arch(), code@, address) == Some(insns_view(v@)),
                None => decoding(self.arch(), code@, address) is None,
            },
    {
        let texts = match self.disasm_text(code, address) {
            Some(t) => t,
            None => return None,
        };
        let ghost ts = texts@.map_values(|t: InsnText| t@);
        let mut out: Vec<DecodedInsn> = Vec::new();
        let mut k: usize = 0;
        while k < texts.len()
            invariant
                k <= texts@.len(),
                decoded_text(self.arch, code@, address) == Some(ts),
                ts == texts@.map_values(|t: InsnText| t@),
                out@.len() == k,
                forall|j: int| 0 <= j < k ==> (#[trigger] out@[j])@ == decoding(self.arch, code@, address)->Some_0[j],
            decreases texts@.len() - k,
        {
            let t = &texts[k];
            let bytes = t.bytes.clone();
            assert(bytes@ =~= t.bytes@);
            let insn = DecodedInsn {
                address: t.address,
                bytes,
                mnemonic: t.mnemonic.clone(),
                op_str: t.op_str.clone(),
                detail: self.insn_detail(code, address, k),
            };
            out.push(insn);
            k = k + 1;
        }
        assert(insns_view(out@) =~= decoding(self.arch, code@, address)->Some_0);
        Some(out)
    }
}

} // verus!
