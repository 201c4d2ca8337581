use crate::error::{DecodeError, Result};
use crate::model::{rule_sets_view, strings_view, CanopyArchive, CanopyArchiveView, RuleSet, RuleSetView};
use crate::numtext::{dec_chars, decimal_string};
use crate::page::{page_energy, page_energy_spec};
use crate::reader::{
    copy_bytes, read_bytes_spec, read_string_spec, read_u8_spec, read_var_usize_spec, Reader, Step,
};
use crate::store::{saved_delta_spec, ScratchStack, ScratchStackView};
use vstd::prelude::*;

verus! {

#[derive(Debug, Clone, Copy, PartialEq, Eq, Structural)]
pub enum Opcode {
    PushI8,
    PushU16,
    Add,
    Sub,
    Mul,
    Div,
    LoadPageEnergy,
    LoadDeviceCount,
    Remember,
    Compact,
    SavedDelta,
    JumpIfZero,
    Halt,
}

/// The instruction a byte encodes, if any.
pub open spec fn opcode_of(b: u8) -> Option<Opcode> {
    if b == 0x01 {
        Some(Opcode::PushI8)
    } else if b == 0x02 {
        Some(Opcode::PushU16)
    } else if b == 0x10 {
        Some(Opcode::Add)
    } else if b == 0x11 {
        Some(Opcode::Sub)
    } else if b == 0x12 {
        Some(Opcode::Mul)
    } else if b == 0x13 {
        Some(Opcode::Div)
    } else if b == 0x20 {
        Some(Opcode::LoadPageEnergy)
    } else if b == 0x21 {
        Some(Opcode::LoadDeviceCount)
    } else if b == 0x30 {
        Some(Opcode::Remember)
    } else if b == 0x31 {
        Some(Opcode::Compact)
    } else if b == 0x32 {
        Some(Opcode::SavedDelta)
    } else if b == 0x40 {
        Some(Opcode::JumpIfZero)
    } else if b == 0xff {
        Some(Opcode::Halt)
    } else {
        None
    }
}

impl Opcode {
    pub fn from_byte(byte: u8) -> (r: Result<Self>)
        ensures
            match opcode_of(byte) {
                Some(op) => r == Ok::<Opcode, DecodeError>(op),
                None => r == Err::<Opcode, DecodeError>(DecodeError::InvalidOpcode(byte)),
            },
    {
        match byte {
            0x01 => Ok(Self::PushI8),
            0x02 => Ok(Self::PushU16),
            0x10 => Ok(Self::Add),
            0x11 => Ok(Self::Sub),
            0x12 => Ok(Self::Mul),
            0x13 => Ok(Self::Div),
            0x20 => Ok(Self::LoadPageEnergy),
            0x21 => Ok(Self::LoadDeviceCount),
            0x30 => Ok(Self::Remember),
            0x31 => Ok(Self::Compact),
            0x32 => Ok(Self::SavedDelta),
            0x40 => Ok(Self::JumpIfZero),
            0xff => Ok(Self::Halt),
            other => Err(DecodeError::InvalidOpcode(other)),
        }
    }
}

/// A rule set whose bytecode has been checked.
#[derive(Debug, Clone)]
pub struct RuleProgram {
    pub name: String,
    pub code: Vec<u8>,
    pub labels: Vec<String>,
}

pub struct RuleProgramView {
    pub name: Seq<char>,
    pub code: Seq<u8>,
    pub labels: Seq<Seq<char>>,
}

impl View for RuleProgram {
    type V = RuleProgramView;

    open spec fn view(&self) -> RuleProgramView {
        RuleProgramView { name: self.name@, code: self.code@, labels: strings_view(self.labels@) }
    }
}

pub open spec fn rule_label(idx: nat) -> Seq<char> {
    "rule-"@ + dec_chars(idx)
}

pub open spec fn label_label(idx: nat) -> Seq<char> {
    "label-"@ + dec_chars(idx)
}

/// Labels `j..n` of a rule record; an unreadable label is replaced by its placeholder.
pub open spec fn labels_from(d: Seq<u8>, p: int, j: nat, n: nat, acc: Seq<Seq<char>>) -> (Seq<Seq<char>>, int)
    decreases n - j,
{
    if j >= n {
        (acc, p)
    } else {
        let (l, q) = match read_string_spec(d, p) {
            (Ok(s), q) => (s, q),
            (Err(_), q) => (label_label(j), q),
        };
        labels_from(d, q, j + 1, n, acc.push(l))
    }
}

/// One rule record: a name (unreadable names get a placeholder), a label count byte
/// (0 when missing, at most 32 used), the labels, then a length-prefixed bytecode.
pub open spec fn rule_item(d: Seq<u8>, p: int, idx: nat) -> Step<RuleSetView> {
    let (name, p1) = match read_string_spec(d, p) {
        (Ok(s), q) => (s, q),
        (Err(_), q) => (rule_label(idx), q),
    };
    let (lc, p2) = match read_u8_spec(d, p1) {
        (Ok(b), q) => (b, q),
        (Err(_), q) => (0u8, q),
    };
    let n: nat = if lc < 32 { lc as nat } else { 32 };
    let (labels, p3) = labels_from(d, p2, 0, n, seq![]);
    match read_var_usize_spec(d, p3) {
        (Err(e), q) => (Err(e), q),
        (Ok(len), p4) => match read_bytes_spec(d, p4, len as int) {
            (Err(e), q) => (Err(e), q),
            (Ok(b), p5) => (Ok(RuleSetView { name, bytecode: b, labels }), p5),
        },
    }
}

/// The rule sets of a rules segment: a count (at most 512) and that many records.
pub open spec fn rules_spec(d: Seq<u8>) -> core::result::Result<Seq<RuleSetView>, DecodeError> {
    match read_var_usize_spec(d, 0) {
        (Err(e), _) => Err(e),
        (Ok(count), p) => if count > 512 {
            Err(DecodeError::InvalidField("rule count"))
        } else {
            crate::reader::repeat_spec(|d: Seq<u8>, p: int, i: nat| rule_item(d, p, i), d, p, 0, count as nat, seq![]).0
        },
    }
}

fn numbered(prefix: &str, idx: usize) -> (r: String)
    ensures
        r@ == prefix@ + dec_chars(idx as nat),
{
    let mut s = prefix.to_owned();
    let digits = decimal_string(idx as u64);
    s.append(digits.as_str());
    s
}

fn read_labels(r: &mut Reader, n: usize) -> (labels: Vec<String>)
    ensures
        final(r)@.data == old(r)@.data,
        (strings_view(labels@), final(r)@.pos) == labels_from(old(r)@.data, old(r)@.pos, 0, n as nat, seq![]),
{
    let ghost d = r@.data;
    let ghost p = r@.pos;
    let mut labels: Vec<String> = Vec::new();
    let mut j: usize = 0;
    assert(strings_view(labels@) =~= Seq::<Seq<char>>::empty());
    while j < n
        invariant
            r@.data == d,
            d == old(r)@.data,
            p == old(r)@.pos,
            j <= n,
            labels_from(d, r@.pos, j as nat, n as nat, strings_view(labels@)) == labels_from(d, p, 0, n as nat, seq![]),
        decreases n - j,
    {
        let label = match r.read_string() {
            Ok(s) => s,
            Err(_) => numbered("label-", j),
        };
        proof {
            assert(strings_view(labels@.push(label)) =~= strings_view(labels@).push(label@));
        }
        labels.push(label);
        j = j + 1;
    }
    labels
}

pub fn parse_rules_segment(data: &[u8]) -> (r: Result<Vec<RuleSet>>)
    ensures
        match r {
            Ok(v) => rules_spec(data@) == Ok::<Seq<RuleSetView>, DecodeError>(rule_sets_view(v@)),
            Err(e) => rules_spec(data@) == Err::<Seq<RuleSetView>, DecodeError>(e),
        },
{
    let ghost d = data@;
    let ghost item = |d: Seq<u8>, p: int, i: nat| rule_item(d, p, i);
    let mut r = Reader::new(data);
    let count = r.read_var_usize()?;
    if count > 512 {
        return Err(DecodeError::InvalidField("rule count"));
    }
    let mut out: Vec<RuleSet> = Vec::new();
    let ghost start = r@.pos;
    assert(rule_sets_view(out@) =~= Seq::<RuleSetView>::empty());
    let mut idx: usize = 0;
    while idx < count
        invariant
            r@.data == d,
            d == data@,
            idx <= count,
            count <= 512,
            item == (|d: Seq<u8>, p: int, i: nat| rule_item(d, p, i)),
            crate::reader::repeat_spec(item, d, r@.pos, idx as nat, count as nat, rule_sets_view(out@))
                == crate::reader::repeat_spec(item, d, start, 0, count as nat, seq![]),
            read_var_usize_spec(d, 0) == (Ok::<usize, DecodeError>(count), start),
        decreases count - idx,
    {
        let ghost p = r@.pos;
        let name = match r.read_string() {
            Ok(s) => s,
            Err(_) => numbered("rule-", idx),
        };
        let ghost p1 = r@.pos;
        let lc = match r.read_u8() {
            Ok(b) => b,
            Err(_) => 0,
        };
        let label_count: usize = if lc < 32 { lc as usize } else { 32 };
        let ghost p2 = r@.pos;
        let labels = read_labels(&mut r, label_count);
        let ghost p3 = r@.pos;
        proof {
            let (nm, q1) = match read_string_spec(d, p) {
                (Ok(s), q) => (s, q),
                (Err(_), q) => (rule_label(idx as nat), q),
            };
            assert(nm == name@ && q1 == p1);
            let (l, q2) = match read_u8_spec(d, p1) {
                (Ok(b), q) => (b, q),
                (Err(_), q) => (0u8, q),
            };
            assert(l == lc && q2 == p2);
            let n: nat = if l < 32 { l as nat } else { 32 };
            assert(n == label_count);
            assert(labels_from(d, p2, 0, n, seq![]) == (strings_view(labels@), p3));
        }
        let len = match r.read_var_usize() {
            Ok(v) => v,
            Err(e) => {
                proof {
                    assert(item(d, p, idx as nat).0 == Err::<RuleSetView, DecodeError>(e));
                }
                return Err(e);
            },
        };
        let bytes = match r.read_bytes(len) {
            Ok(b) => b,
            Err(e) => {
                proof {
                    assert(item(d, p, idx as nat).0 == Err::<RuleSetView, DecodeError>(e));
                }
                return Err(e);
            },
        };
        let bytecode = copy_bytes(bytes);
        let set = RuleSet { name, labels, bytecode };
        proof {
            assert(item(d, p, idx as nat) == (Ok::<RuleSetView, DecodeError>(set@), r@.pos));
            assert(rule_sets_view(out@.push(set)) =~= rule_sets_view(out@).push(set@));
        }
        out.push(set);
        idx = idx + 1;
    }
    Ok(out)
}

/// Bytes of operand that follow an instruction.
pub open spec fn operand_len(op: Opcode) -> int {
    match op {
        Opcode::PushI8 => 1,
        Opcode::PushU16 => 2,
        Opcode::JumpIfZero => 1,
        _ => 0,
    }
}

/// Checks the instructions from `pc` on: each byte is a known instruction and its operand
/// fits in the code.
pub open spec fn code_check(code: Seq<u8>, pc: int) -> core::result::Result<(), DecodeError>
    decreases code.len() - pc,
{
    if pc < 0 || pc >= code.len() {
        Ok(())
    } else {
        match opcode_of(code[pc]) {
            None => Err(DecodeError::InvalidOpcode(code[pc])),
            Some(op) => {
                let next = pc + 1 + operand_len(op);
                if next > code.len() {
                    Err(DecodeError::Truncated { at: code.len() as usize, needed: next as usize, available: code.len() as usize })
                } else {
                    code_check(code, next)
                }
            },
        }
    }
}

fn copy_strings(v: &Vec<String>) -> (r: Vec<String>)
    ensures
        strings_view(r@) == strings_view(v@),
{
    let mut out: Vec<String> = Vec::new();
    let mut i: usize = 0;
    while i < v.len()
        invariant
            i <= v@.len(),
            out@.len() == i,
            forall|j: int| 0 <= j < i ==> #[trigger] out@[j]@ == v@[j]@,
        decreases v@.len() - i,
    {
        out.push(v[i].clone());
        i = i + 1;
    }
    assert(strings_view(out@) =~= strings_view(v@));
    out
}

/// Checks a rule set's bytecode and, when it is well formed, makes it a program.
pub fn compile_rule(set: &RuleSet) -> (r: Result<RuleProgram>)
    ensures
        match r {
            Ok(p) => code_check(set@.bytecode, 0) is Ok && p@ == (RuleProgramView {
                name: set@.name,
                code: set@.bytecode,
                labels: set@.labels,
            }),
            Err(e) => code_check(set@.bytecode, 0) == Err::<(), DecodeError>(e),
        },
{
    let ghost code = set@.bytecode;
    let n = set.bytecode.len();
    let mut pc: usize = 0;
    while pc < n
        invariant
            n == code.len(),
            code == set.bytecode@,
            pc <= n,
            code_check(code, pc as int) == code_check(code, 0),
        decreases n - pc,
    {
        let opcode = Opcode::from_byte(set.bytecode[pc])?;
        let width: usize = match opcode {
            Opcode::PushI8 => 1,
            Opcode::PushU16 => 2,
            Opcode::JumpIfZero => 1,
            _ => 0,
        };
        if width + 1 > n - pc {
            return Err(
                DecodeError::Truncated { at: n, needed: (pc as u128 + 1 + width as u128) as usize, available: n },
            );
        }
        pc = pc + 1 + width;
    }
    Ok(RuleProgram { name: set.name.clone(), code: copy_bytes(set.bytecode.as_slice()), labels: copy_strings(&set.labels) })
}

/// One step of the rule machine, as seen from the specification.
pub enum RuleStep {
    Next(int, ScratchStackView),
    Stop(ScratchStackView),
    Fail(DecodeError),
}

pub open spec fn st_push(st: ScratchStackView, v: i64) -> ScratchStackView {
    ScratchStackView { values: st.values.push(v), ..st }
}

pub open spec fn st_pop(st: ScratchStackView) -> (Option<i64>, ScratchStackView) {
    if st.values.len() == 0 {
        (None, st)
    } else {
        (Some(st.values.last()), ScratchStackView { values: st.values.drop_last(), ..st })
    }
}

pub open spec fn st_remember(st: ScratchStackView) -> ScratchStackView {
    if st.values.len() == 0 {
        st
    } else {
        ScratchStackView { saved: Some(st.values.last()), saved_len: st.values.len() as usize, ..st }
    }
}

pub open spec fn st_compact(st: ScratchStackView, keep: usize) -> ScratchStackView {
    ScratchStackView {
        values: if st.values.len() > keep { st.values.skip(st.values.len() - keep) } else { st.values },
        ..st
    }
}

pub open spec fn or_zero(o: Option<i64>) -> i64 {
    match o {
        Some(v) => v,
        None => 0,
    }
}

/// `|x|` as an unsigned number.
pub open spec fn abs_u64(x: i64) -> u64 {
    if x < 0 {
        (-(x as int)) as u64
    } else {
        x as u64
    }
}

/// Division rounding toward zero; `i64::MIN / -1` wraps to `i64::MIN`.
pub open spec fn wrapping_div_spec(a: i64, b: i64) -> i64
    recommends
        b != 0,
{
    if a == i64::MIN && b == -1 {
        i64::MIN
    } else {
        let q = (abs_u64(a) / abs_u64(b)) as int;
        if (a < 0) != (b < 0) {
            (-q) as i64
        } else {
            q as i64
        }
    }
}

/// Arithmetic of the two topmost operands; division by zero leaves the dividend.
pub open spec fn binop_spec(op: Opcode, a: i64, b: i64) -> i64 {
    match op {
        Opcode::Add => a.wrapping_add(b),
        Opcode::Sub => a.wrapping_sub(b),
        Opcode::Mul => a.wrapping_mul(b),
        _ => if b == 0 {
            a
        } else {
            wrapping_div_spec(a, b)
        },
    }
}

/// The instruction at `pc`, executed against page energies `e` and device count `devices`.
pub open spec fn rule_step(code: Seq<u8>, e: Seq<i64>, devices: usize, pc: int, st: ScratchStackView) -> RuleStep {
    let pc1 = pc + 1;
    match opcode_of(code[pc]) {
        None => RuleStep::Fail(DecodeError::InvalidOpcode(code[pc])),
        Some(op) => match op {
            Opcode::PushI8 => if pc1 < code.len() {
                RuleStep::Next(pc1 + 1, st_push(st, (code[pc1] as i8) as i64))
            } else {
                RuleStep::Fail(DecodeError::Truncated { at: pc1 as usize, needed: 1, available: 0 })
            },
            Opcode::PushU16 => if pc1 >= code.len() {
                RuleStep::Fail(DecodeError::Truncated { at: pc1 as usize, needed: 2, available: 0 })
            } else if pc1 + 1 >= code.len() {
                RuleStep::Fail(DecodeError::Truncated { at: pc1 as usize, needed: 2, available: 1 })
            } else {
                RuleStep::Next(pc1 + 2, st_push(st, (code[pc1] + 256 * code[pc1 + 1]) as i64))
            },
            Opcode::Add | Opcode::Sub | Opcode::Mul | Opcode::Div => {
                let (b, s1) = st_pop(st);
                let (a, s2) = st_pop(s1);
                RuleStep::Next(pc1, st_push(s2, binop_spec(op, or_zero(a), or_zero(b))))
            },
            Opcode::LoadPageEnergy => {
                let (x, s1) = st_pop(st);
                let idx = abs_u64(or_zero(x)) as usize;
                let m = if e.len() == 0 { 1 } else { e.len() };
                let j = idx as int % m as int;
                RuleStep::Next(pc1, st_push(s1, if j < e.len() { e[j] } else { 0 }))
            },
            Opcode::LoadDeviceCount => RuleStep::Next(pc1, st_push(st, devices as i64)),
            Opcode::Remember => RuleStep::Next(pc1, st_remember(st)),
            Opcode::Compact => {
                let (x, s1) = st_pop(st);
                let v = match x {
                    Some(v) => v,
                    None => 4,
                };
                RuleStep::Next(pc1, st_compact(s1, ((abs_u64(v) as usize) % 16) as usize))
            },
            Opcode::SavedDelta => RuleStep::Next(pc1, st_push(st, saved_delta_spec(st))),
            Opcode::JumpIfZero => if pc1 >= code.len() {
                RuleStep::Fail(DecodeError::Truncated { at: pc1 as usize, needed: 1, available: 0 })
            } else {
                let off = code[pc1] as i8;
                let pc2 = pc1 + 1;
                let (x, s1) = st_pop(st);
                let target = if or_zero(x) == 0 {
                    if off < 0 {
                        if pc2 + off < 0 { 0 } else { pc2 + off }
                    } else if pc2 + off > code.len() {
                        code.len() as int
                    } else {
                        pc2 + off
                    }
                } else {
                    pc2
                };
                RuleStep::Next(target, s1)
            },
            Opcode::Halt => RuleStep::Stop(st),
        },
    }
}

/// Runs the machine from `pc` with `fuel` instructions left; it stops at the end of the
/// code, when the fuel runs out, or at `Halt`.
pub open spec fn rule_run(
    code: Seq<u8>,
    e: Seq<i64>,
    devices: usize,
    pc: int,
    fuel: nat,
    st: ScratchStackView,
) -> core::result::Result<ScratchStackView, DecodeError>
    decreases fuel,
{
    if pc < 0 || pc >= code.len() || fuel == 0 {
        Ok(st)
    } else {
        match rule_step(code, e, devices, pc, st) {
            RuleStep::Next(next, s) => rule_run(code, e, devices, next, (fuel - 1) as nat, s),
            RuleStep::Stop(s) => Ok(s),
            RuleStep::Fail(err) => Err(err),
        }
    }
}

/// The value a finished machine yields: its top operand (or 0) plus the saved delta and
/// the depth of what is left, wrapping.
pub open spec fn rule_result(st: ScratchStackView) -> i64 {
    let (x, s1) = st_pop(st);
    or_zero(x).wrapping_add(saved_delta_spec(s1)).wrapping_add(s1.values.len() as i64)
}

pub open spec fn empty_stack() -> ScratchStackView {
    ScratchStackView { values: Seq::empty(), saved: None, saved_len: 0 }
}

/// Energy of every page of the archive.
pub open spec fn archive_energies(a: CanopyArchiveView) -> Seq<i64> {
    a.pages.map_values(|p| page_energy_spec(p))
}

/// What running a program on an archive yields.
pub open spec fn program_result(code: Seq<u8>, a: CanopyArchiveView) -> core::result::Result<i64, DecodeError> {
    match rule_run(code, archive_energies(a), a.manifest.devices.len() as usize, 0, 4096, empty_stack()) {
        Ok(st) => Ok(rule_result(st)),
        Err(e) => Err(e),
    }
}

fn unsigned_abs(x: i64) -> (r: u64)
    ensures
        r == abs_u64(x),
{
    if x < 0 {
        (0i128 - x as i128) as u64
    } else {
        x as u64
    }
}

fn wrapping_div(a: i64, b: i64) -> (r: i64)
    requires
        b != 0,
    ensures
        r == wrapping_div_spec(a, b),
{
    if a == i64::MIN && b == -1 {
        return i64::MIN;
    }
    let q = unsigned_abs(a) / unsigned_abs(b);
    if (a < 0) != (b < 0) {
        (0i128 - q as i128) as i64
    } else {
        q as i64
    }
}

fn binop(stack: &mut ScratchStack, op: Opcode)
    ensures
        ({
            let (b, s1) = st_pop(old(stack)@);
            let (a, s2) = st_pop(s1);
            final(stack)@ == st_push(s2, binop_spec(op, or_zero(a), or_zero(b)))
        }),
{
    let b = match stack.pop() {
        Some(v) => v,
        None => 0,
    };
    let a = match stack.pop() {
        Some(v) => v,
        None => 0,
    };
    let v = match op {
        Opcode::Add => a.wrapping_add(b),
        Opcode::Sub => a.wrapping_sub(b),
        Opcode::Mul => a.wrapping_mul(b),
        _ => if b == 0 {
            a
        } else {
            wrapping_div(a, b)
        },
    };
    stack.push(v);
}

/// Executes the instruction at `pc`; returns the next `pc` and whether the program halted.
fn step(program: &RuleProgram, archive: &CanopyArchive, pc: usize, stack: &mut ScratchStack) -> (r: Result<(usize, bool)>)
    requires
        pc < program.code@.len(),
    ensures
        match rule_step(
            program.code@,
            archive_energies(archive@),
            archive@.manifest.devices.len() as usize,
            pc as int,
            old(stack)@,
        ) {
            RuleStep::Next(next, s) => r == Ok::<(usize, bool), DecodeError>((next as usize, false)) && final(stack)@ == s
                && next <= program.code@.len(),
            RuleStep::Stop(s) => r matches Ok((_, true)) && final(stack)@ == s,
            RuleStep::Fail(e) => r == Err::<(usize, bool), DecodeError>(e),
        },
{
    let code = &program.code;
    let len = code.len();
    let opcode = Opcode::from_byte(code[pc])?;
    let pc1 = pc + 1;
    match opcode {
        Opcode::PushI8 => {
            if pc1 >= len {
                return Err(DecodeError::Truncated { at: pc1, needed: 1, available: 0 });
            }
            let v = code[pc1] as i8 as i64;
            stack.push(v);
            Ok((pc1 + 1, false))
        },
        Opcode::PushU16 => {
            if pc1 >= len {
                return Err(DecodeError::Truncated { at: pc1, needed: 2, available: 0 });
            }
            if pc1 + 1 >= len {
                return Err(DecodeError::Truncated { at: pc1, needed: 2, available: 1 });
            }
            let v = (code[pc1] as u16 + 256 * code[pc1 + 1] as u16) as i64;
            stack.push(v);
            Ok((pc1 + 2, false))
        },
        Opcode::Add | Opcode::Sub | Opcode::Mul | Opcode::Div => {
            binop(stack, opcode);
            Ok((pc1, false))
        },
        Opcode::LoadPageEnergy => {
            let x = match stack.pop() {
                Some(v) => v,
                None => 0,
            };
            let idx = unsigned_abs(x) as usize;
            let n = archive.pages.len();
            let m = if n == 0 { 1 } else { n };
            let j = idx % m;
            let energy = if j < n { page_energy(&archive.pages[j]) } else { 0 };
            stack.push(energy);
            Ok((pc1, false))
        },
        Opcode::LoadDeviceCount => {
            stack.push(archive.manifest.devices.len() as i64);
            Ok((pc1, false))
        },
        Opcode::Remember => {
            stack.remember_top();
            Ok((pc1, false))
        },
        Opcode::Compact => {
            let x = match stack.pop() {
                Some(v) => v,
                None => 4,
            };
            let keep = (unsigned_abs(x) as usize) % 16;
            stack.compact_for_window(keep);
            Ok((pc1, false))
        },
        Opcode::SavedDelta => {
            let d = stack.saved_delta();
            stack.push(d);
            Ok((pc1, false))
        },
        Opcode::JumpIfZero => {
            if pc1 >= len {
                return Err(DecodeError::Truncated { at: pc1, needed: 1, available: 0 });
            }
            let offset = code[pc1] as i8;
            let pc2 = pc1 + 1;
            let top = match stack.pop() {
                Some(v) => v,
                None => 0,
            };
            let next = if top == 0 {
                if offset < 0 {
                    let back = (0i16 - offset as i16) as usize;
                    pc2.saturating_sub(back)
                } else {
                    if offset as usize > len - pc2 {
                        len
                    } else {
                        pc2 + offset as usize
                    }
                }
            } else {
                pc2
            };
            Ok((next, false))
        },
        Opcode::Halt => Ok((pc1, true)),
    }
}

/// Runs a program against an archive.
pub fn execute_rule(program: &RuleProgram, archive: &CanopyArchive) -> (r: Result<i64>)
    ensures
        r == program_result(program@.code, archive@),
{
    let ghost code = program.code@;
    let ghost e = archive_energies(archive@);
    let ghost devices = archive@.manifest.devices.len() as usize;
    let mut stack = ScratchStack::new();
    let mut pc: usize = 0;
    let mut fuel: usize = 4096;
    let mut halted = false;
    assert(stack@.values =~= Seq::<i64>::empty());
    assert(stack@ == empty_stack());
    while !halted && pc < program.code.len() && fuel > 0
        invariant
            code == program.code@,
            e == archive_energies(archive@),
            devices == archive@.manifest.devices.len() as usize,
            pc <= code.len(),
            fuel <= 4096,
            halted ==> rule_run(code, e, devices, 0, 4096, empty_stack()) == Ok::<
                ScratchStackView,
                DecodeError,
            >(stack@),
            !halted ==> rule_run(code, e, devices, pc as int, fuel as nat, stack@) == rule_run(
                code,
                e,
                devices,
                0,
                4096,
                empty_stack(),
            ),
        decreases fuel, (if halted { 0int } else { 1int }),
    {
        let (next, stop) = step(program, archive, pc, &mut stack)?;
        fuel = fuel - 1;
        if stop {
            halted = true;
        } else {
            pc = next;
        }
    }
    let top = match stack.pop() {
        Some(v) => v,
        None => 0,
    };
    Ok(top.wrapping_add(stack.saved_delta()).wrapping_add(stack.len() as i64))
}

/// What evaluating every rule set of an archive yields: the wrapping sum of the program
/// results, or the first failure.
pub open spec fn rules_total(sets: Seq<RuleSetView>, a: CanopyArchiveView) -> core::result::Result<i64, DecodeError>
    decreases sets.len(),
{
    if sets.len() == 0 {
        Ok(0)
    } else {
        match rules_total(sets.drop_last(), a) {
            Err(e) => Err(e),
            Ok(t) => match code_check(sets.last().bytecode, 0) {
                Err(e) => Err(e),
                Ok(_) => match program_result(sets.last().bytecode, a) {
                    Err(e) => Err(e),
                    Ok(v) => Ok(t.wrapping_add(v)),
                },
            },
        }
    }
}

proof fn lemma_rules_total_prefix_err(sets: Seq<RuleSetView>, k: int, a: CanopyArchiveView)
    requires
        0 <= k <= sets.len(),
        rules_total(sets.take(k), a) is Err,
    ensures
        rules_total(sets, a) == rules_total(sets.take(k), a),
    decreases sets.len(),
{
    if k < sets.len() {
        assert(sets.drop_last().take(k) =~= sets.take(k));
        lemma_rules_total_prefix_err(sets.drop_last(), k, a);
    } else {
        assert(sets.take(k) =~= sets);
    }
}

/// The arithmetic instructions replace the two topmost operands, `a` below and `b` on
/// top, by `a + b`, `a - b` or `a * b` (wrapping), and division by zero leaves `a`; the
/// rest of the stack, the remembered value and the program counter's step are as for any
/// one-byte instruction.
pub proof fn law_arith_step(
    code: Seq<u8>,
    e: Seq<i64>,
    devices: usize,
    pc: int,
    st: ScratchStackView,
    vs: Seq<i64>,
    a: i64,
    b: i64,
)
    requires
        0 <= pc < code.len(),
        st.values == vs.push(a).push(b),
    ensures
        code[pc] == 0x10 ==> rule_step(code, e, devices, pc, st) == RuleStep::Next(
            pc + 1,
            ScratchStackView { values: vs.push(a.wrapping_add(b)), ..st },
        ),
        code[pc] == 0x11 ==> rule_step(code, e, devices, pc, st) == RuleStep::Next(
            pc + 1,
            ScratchStackView { values: vs.push(a.wrapping_sub(b)), ..st },
        ),
        code[pc] == 0x12 ==> rule_step(code, e, devices, pc, st) == RuleStep::Next(
            pc + 1,
            ScratchStackView { values: vs.push(a.wrapping_mul(b)), ..st },
        ),
        code[pc] == 0x13 && b == 0 ==> rule_step(code, e, devices, pc, st) == RuleStep::Next(
            pc + 1,
            ScratchStackView { values: vs.push(a), ..st },
        ),
        code[pc] == 0x13 && b != 0 ==> rule_step(code, e, devices, pc, st) == RuleStep::Next(
            pc + 1,
            ScratchStackView { values: vs.push(wrapping_div_spec(a, b)), ..st },
        ),
{
    assert(vs.push(a).push(b).drop_last() =~= vs.push(a));
    assert(vs.push(a).drop_last() =~= vs);
}

/// Rule division truncates toward zero: for a nonzero divisor the quotient `q` leaves a
/// remainder `a - q * b` smaller in size than `b` and of the sign of `a` (or zero), except
/// that `i64::MIN / -1` wraps to `i64::MIN`.
pub proof fn law_division(a: i64, b: i64)
    requires
        b != 0,
    ensures
        a == i64::MIN && b == -1 ==> wrapping_div_spec(a, b) == i64::MIN,
        !(a == i64::MIN && b == -1) ==> ({
            let q = wrapping_div_spec(a, b) as int;
            let r = a - q * b;
            &&& -(b as int) < r < b || (b as int) < r < -(b as int)
            &&& r == 0 || ((r > 0) == (a > 0))
        }),
{
    if !(a == i64::MIN && b == -1) {
        let ua = abs_u64(a) as int;
        let ub = abs_u64(b) as int;
        assert(ua == if a < 0 { -(a as int) } else { a as int });
        assert(ub == if b < 0 { -(b as int) } else { b as int });
        assert(ub > 0);
        let q0 = ua / ub;
        let r0 = ua % ub;
        assert(ua == q0 * ub + r0 && 0 <= r0 < ub) by (nonlinear_arith)
            requires
                ub > 0,
                q0 == ua / ub,
                r0 == ua % ub,
        ;
        assert(0 <= q0 <= ua) by (nonlinear_arith)
            requires
                ub >= 1,
                ua >= 0,
                q0 == ua / ub,
        ;
        assert(q0 <= 0x8000_0000_0000_0000);
        if q0 == 0x8000_0000_0000_0000 {
            assert(ub == 1) by (nonlinear_arith)
                requires
                    q0 == ua / ub,
                    ub >= 1,
                    ua <= 0x8000_0000_0000_0000,
                    q0 == 0x8000_0000_0000_0000,
            {
                if ub >= 2 {
                    vstd::arithmetic::div_mod::lemma_div_is_ordered_by_denominator(ua, 2, ub);
                }
            }
        }
        let q = wrapping_div_spec(a, b) as int;
        if (a < 0) != (b < 0) {
            assert(q == -q0);
        } else {
            assert(q == q0);
        }
        let r = a - q * b;
        if a < 0 && b < 0 {
            assert(r == -r0) by (nonlinear_arith)
                requires q == q0, ua == -(a as int), ub == -(b as int), ua == q0 * ub + r0, r == a - q * b;
        } else if a < 0 {
            assert(r == -r0) by (nonlinear_arith)
                requires q == -q0, ua == -(a as int), ub == b, ua == q0 * ub + r0, r == a - q * b;
        } else if b < 0 {
            assert(r == r0) by (nonlinear_arith)
                requires q == -q0, ua == a, ub == -(b as int), ua == q0 * ub + r0, r == a - q * b;
        } else {
            assert(r == r0) by (nonlinear_arith)
                requires q == q0, ua == a, ub == b, ua == q0 * ub + r0, r == a - q * b;
        }
    }
}

/// A program that pushes `x` and then `y` and subtracts yields `x - y`, for every pair of
/// signed bytes, on any archive.
pub proof fn law_push_push_sub(x: u8, y: u8, a: CanopyArchiveView)
    ensures
        program_result(seq![0x01u8, x, 0x01u8, y, 0x11u8], a) == Ok::<i64, DecodeError>(
            ((x as i8) as i64).wrapping_sub((y as i8) as i64),
        ),
{
    let code = seq![0x01u8, x, 0x01u8, y, 0x11u8];
    let e = archive_energies(a);
    let dv = a.manifest.devices.len() as usize;
    let s0 = empty_stack();
    let xv = (x as i8) as i64;
    let yv = (y as i8) as i64;
    let s1 = st_push(s0, xv);
    let s2 = st_push(s1, yv);
    let s3 = ScratchStackView { values: seq![xv.wrapping_sub(yv)], ..s0 };
    assert(rule_step(code, e, dv, 0, s0) == RuleStep::Next(2, s1));
    assert(rule_step(code, e, dv, 2, s1) == RuleStep::Next(4, s2));
    law_arith_step(code, e, dv, 4, s2, Seq::empty(), xv, yv);
    assert(Seq::<i64>::empty().push(xv).push(yv) =~= s2.values);
    assert(Seq::<i64>::empty().push(xv.wrapping_sub(yv)) =~= s3.values);
    assert(rule_step(code, e, dv, 4, s2) == RuleStep::Next(5, s3));
    assert(rule_run(code, e, dv, 5, 4093, s3) == Ok::<ScratchStackView, DecodeError>(s3));
    assert(rule_run(code, e, dv, 4, 4094, s2) == Ok::<ScratchStackView, DecodeError>(s3));
    assert(rule_run(code, e, dv, 2, 4095, s1) == Ok::<ScratchStackView, DecodeError>(s3));
    assert(rule_run(code, e, dv, 0, 4096, s0) == Ok::<ScratchStackView, DecodeError>(s3));
    let (top, rest) = st_pop(s3);
    assert(rest.values =~= Seq::<i64>::empty());
    assert(saved_delta_spec(rest) == 0);
    assert(rule_result(s3) == xv.wrapping_sub(yv).wrapping_add(0).wrapping_add(0));
}

/// What one rule set gives: the error of its compilation, or else what its program yields
/// when run on the archive.
pub open spec fn compiled_run(set: RuleSetView, a: CanopyArchiveView) -> core::result::Result<i64, DecodeError> {
    match code_check(set.bytecode, 0) {
        Err(e) => Err(e),
        Ok(_) => program_result(set.bytecode, a),
    }
}

/// The wrapping sum of the values the rule sets yield.
pub open spec fn compiled_sum(sets: Seq<RuleSetView>, a: CanopyArchiveView) -> i64
    decreases sets.len(),
{
    if sets.len() == 0 {
        0
    } else {
        compiled_sum(sets.drop_last(), a).wrapping_add(compiled_run(sets.last(), a)->Ok_0)
    }
}

/// Evaluating the rules compiles and runs each rule set in order: when every one succeeds
/// the result is the wrapping sum of their values (0 without rules); otherwise it is the
/// error of the first rule set that fails to compile or to run.
pub proof fn law_rules_total(sets: Seq<RuleSetView>, a: CanopyArchiveView)
    ensures
        (forall|i: int| 0 <= i < sets.len() ==> (#[trigger] compiled_run(sets[i], a)) is Ok) ==> rules_total(sets, a)
            == Ok::<i64, DecodeError>(compiled_sum(sets, a)),
        forall|k: int|
            0 <= k < sets.len() && (#[trigger] compiled_run(sets[k], a)) is Err && (forall|i: int|
                0 <= i < k ==> (#[trigger] compiled_run(sets[i], a)) is Ok) ==> rules_total(sets, a) == compiled_run(
                sets[k],
                a,
            ),
    decreases sets.len(),
{
    if sets.len() > 0 {
        let p = sets.drop_last();
        law_rules_total(p, a);
        assert forall|i: int| 0 <= i < p.len() implies #[trigger] p[i] == sets[i] by {}
        assert(sets.last() == sets[sets.len() - 1]);
        assert forall|k: int|
            0 <= k < sets.len() && (#[trigger] compiled_run(sets[k], a)) is Err && (forall|i: int|
                0 <= i < k ==> (#[trigger] compiled_run(sets[i], a)) is Ok) implies rules_total(sets, a) == compiled_run(
            sets[k],
            a,
        ) by {
            if k < p.len() {
                assert(p[k] == sets[k]);
                assert forall|i: int| 0 <= i < k implies (#[trigger] compiled_run(p[i], a)) is Ok by {
                    assert(p[i] == sets[i]);
                    assert(compiled_run(sets[i], a) is Ok);
                }
            } else {
                assert forall|i: int| 0 <= i < p.len() implies (#[trigger] compiled_run(p[i], a)) is Ok by {
                    assert(p[i] == sets[i]);
                    assert(compiled_run(sets[i], a) is Ok);
                }
            }
        }
        if forall|i: int| 0 <= i < sets.len() ==> (#[trigger] compiled_run(sets[i], a)) is Ok {
            assert forall|i: int| 0 <= i < p.len() implies (#[trigger] compiled_run(p[i], a)) is Ok by {
                assert(p[i] == sets[i]);
                assert(compiled_run(sets[i], a) is Ok);
            }
            assert(compiled_run(sets[sets.len() - 1], a) is Ok);
        }
    }
}

pub fn evaluate_rules(archive: &CanopyArchive) -> (r: Result<i64>)
    ensures
        r == rules_total(archive@.rules, archive@),
{
    let ghost sets = archive@.rules;
    let mut total: i64 = 0;
    let mut i: usize = 0;
    while i < archive.rules.len()
        invariant
            sets == archive@.rules,
            i <= sets.len(),
            rules_total(sets.take(i as int), archive@) == Ok::<i64, DecodeError>(total),
        decreases sets.len() - i,
    {
        proof {
            assert(sets.take(i + 1).drop_last() =~= sets.take(i as int));
        }
        let program = match compile_rule(&archive.rules[i]) {
            Ok(p) => p,
            Err(e) => {
                proof {
                    lemma_rules_total_prefix_err(sets, i + 1, archive@);
                }
                return Err(e);
            },
        };
        let v = match execute_rule(&program, archive) {
            Ok(v) => v,
            Err(e) => {
                proof {
                    lemma_rules_total_prefix_err(sets, i + 1, archive@);
                }
                return Err(e);
            },
        };
        total = total.wrapping_add(v);
        i = i + 1;
    }
    assert(sets.take(i as int) =~= sets);
    Ok(total)
}

} // verus!
