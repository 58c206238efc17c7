//! Code of a contract for the virtual machine, and the conditions under which it runs through.

use aluvm::isa::Bytecode;
use aluvm::isa::GotoTarget;
use aluvm::isa::Instruction;
use aluvm::Lib;
use aluvm::LibId;
use ultrasonic::aluvm::gfa::FieldInstr;
use ultrasonic::fe256;
use ultrasonic::Instr;
use vstd::prelude::*;

verus! {

/// Library of the code for the virtual machine; carried through unopened.
#[verifier::external_type_specification]
#[verifier::external_body]
pub struct ExLib(Lib);

/// Commitment to a library; carried through unopened.
#[verifier::external_type_specification]
#[verifier::external_body]
pub struct ExLibId(LibId);

/// Number of the offsets which a place in the code may have.
pub const OFFSETS: usize = 65536;

/// Where an instruction may go inside of its library.
#[derive(Copy, Clone, Debug)]
pub enum Target {
    /// Nowhere but to the instruction which follows.
    Following,
    /// To an offset from the start of the code.
    At(u16),
    /// To an offset from the instruction itself.
    By(i8),
}

/// What matters of an instruction for whether the code runs through.
#[derive(Copy, Clone, Debug)]
pub struct Step {
    /// Number of bytes in the code.
    pub size: u16,
    /// Number which the instruction puts into a register, unless it takes it from elsewhere.
    pub constant: Option<fe256>,
    /// Whether the instruction negates an element of the field.
    pub negates: bool,
    /// Where the instruction may go inside of its library.
    pub local: Target,
    /// The place in another library where the instruction goes.
    pub remote: Option<(LibId, u16)>,
}

/// The commitment to a library.
pub uninterp spec fn library_id(lib: Lib) -> LibId;

/// The instructions of a library, or nothing where its code ends inside of one.
pub uninterp spec fn library_code(lib: Lib) -> Option<Seq<Step>>;

/// The upper and the lower half of a number.
pub uninterp spec fn number_halves(number: fe256) -> (u128, u128);

/// `aluvm::Lib::lib_id`, compared with a given id.
#[verifier::external_body]
pub(crate) fn has_library_id(lib: &Lib, id: LibId) -> (r: bool)
    ensures
        r == (library_id(*lib) == id),
{
    lib.lib_id() == id
}

/// `aluvm::Lib::disassemble`: all the instructions of the library, in the order of the code; nothing
/// where the code ends inside of an instruction. Of each instruction the step has its length in bytes
/// (`code_byte_len`), the constant of the two instructions which put one (`PutD`, and `PutV` but for
/// the largest element of the field), whether it is `Neg`, and where it may go inside of its library
/// (`local_goto_pos`) and outside (`remote_goto_pos`).
#[verifier::external_body]
fn code_of(lib: &Lib) -> (r: Option<Vec<Step>>)
    ensures
        match r {
            Some(code) => library_code(*lib) == Some(code@),
            None => library_code(*lib) is None,
        },
{
    Some(lib.disassemble::<Instr<LibId>>().ok()?.into_iter().map(|mut instr| Step {
        size: instr.code_byte_len(),
        constant: match &instr {
            Instr::Gfa(FieldInstr::PutD { data, .. }) => Some(*data),
            Instr::Gfa(FieldInstr::PutV { val, .. }) => val.to_fe256(),
            _ => None,
        },
        negates: matches!(&instr, Instr::Gfa(FieldInstr::Neg { .. })),
        remote: instr.remote_goto_pos().map(|site| (site.prog_id, site.offset)),
        local: match instr.local_goto_pos() {
            GotoTarget::None => Target::Following,
            GotoTarget::Absolute(pos) => Target::At(*pos),
            GotoTarget::Relative(shift) => Target::By(*shift),
        },
    }).collect())
}

/// `fe256::to_u256`, by the halves of the number.
#[verifier::external_body]
fn halves_of(number: fe256) -> (r: (u128, u128))
    ensures
        r == number_halves(number),
{
    let bytes = number.to_u256().to_be_bytes();
    let hi = u128::from_be_bytes(bytes[..16].try_into().unwrap());
    let lo = u128::from_be_bytes(bytes[16..].try_into().unwrap());
    (hi, lo)
}

/// The number is below the other one; both are given by their upper and lower halves.
pub open spec fn is_below(one: (u128, u128), other: (u128, u128)) -> bool {
    one.0 < other.0 || (one.0 == other.0 && one.1 < other.1)
}

/// The offset of an instruction in the code.
pub open spec fn offset_at(code: Seq<Step>, k: int) -> nat
    decreases k,
{
    if k <= 0 {
        0
    } else {
        offset_at(code, k - 1) + code[k - 1].size as nat
    }
}

/// An instruction starts at the offset, or the code is over there.
pub open spec fn is_start(code: Seq<Step>, pos: int) -> bool {
    ||| offset_at(code, code.len() as int) <= pos
    ||| exists|k: int| 0 <= k < code.len() && #[trigger] offset_at(code, k) == pos
}

/// The offset where an instruction may go inside of its library; one which would leave the range of
/// the offsets goes nowhere.
pub open spec fn local_target(code: Seq<Step>, k: int) -> Option<int> {
    match code[k].local {
        Target::Following => None,
        Target::At(pos) => Some(pos as int),
        Target::By(shift) => {
            let pos = offset_at(code, k) + shift as int;
            if 0 <= pos < OFFSETS {
                Some(pos)
            } else {
                None
            }
        },
    }
}

/// Whichever library has the id, the place is the start of an instruction there.
pub open spec fn lands(libs: Seq<Lib>, site: (LibId, u16)) -> bool {
    forall|j: int|
        0 <= j < libs.len() && library_id(#[trigger] libs[j]) == site.0 ==> (library_code(
            libs[j],
        ) matches Some(code) && is_start(code, site.1 as int))
}

/// The instruction computes in the field of the given order, and goes to starts of instructions only.
pub open spec fn step_is_sound(
    libs: Seq<Lib>,
    code: Seq<Step>,
    k: int,
    order: (u128, u128),
) -> bool {
    &&& !code[k].negates
    &&& code[k].constant matches Some(number) ==> is_below(number_halves(number), order)
    &&& local_target(code, k) matches Some(pos) ==> is_start(code, pos)
    &&& code[k].remote matches Some(site) ==> lands(libs, site)
}

/// All the given instructions are sound.
pub open spec fn steps_are_sound(libs: Seq<Lib>, code: Seq<Step>, order: (u128, u128)) -> bool {
    forall|k: int| 0 <= k < code.len() ==> #[trigger] step_is_sound(libs, code, k, order)
}

/// All the instructions of a library are sound.
pub open spec fn library_is_sound(libs: Seq<Lib>, lib: Lib, order: (u128, u128)) -> bool {
    library_code(lib) matches Some(code) && steps_are_sound(libs, code, order)
}

/// All the instructions of all the libraries are sound.
pub open spec fn code_is_sound(libs: Seq<Lib>, order: (u128, u128)) -> bool {
    forall|i: int|
        0 <= i < libs.len() ==> library_is_sound(libs, #[trigger] libs[i], order)
}

/// No instruction goes back inside of its library, or to itself.
pub open spec fn goes_onward(code: Seq<Step>) -> bool {
    forall|k: int|
        0 <= k < code.len() ==> (#[trigger] local_target(code, k) matches Some(pos) ==> offset_at(
            code,
            k,
        ) < pos)
}

/// An instruction of the library goes to the other one.
pub open spec fn leads(libs: Seq<Lib>, i: int, k: int, j: int) -> bool {
    &&& library_code(libs[i]) matches Some(code)
    &&& 0 <= k < code.len()
    &&& code[k].remote matches Some(site)
    &&& library_id(libs[j]) == site.0
}

/// From one library to the next, the code passes through no more libraries in a row than given.
pub open spec fn ends_within(libs: Seq<Lib>, i: int, depth: nat) -> bool
    decreases depth,
{
    depth > 0 && forall|k: int, j: int|
        0 <= j < libs.len() && #[trigger] leads(libs, i, k, j) ==> ends_within(
            libs,
            j,
            (depth - 1) as nat,
        )
}

/// The code has no way back: neither inside of a library, nor from library to library.
pub open spec fn code_ends(libs: Seq<Lib>) -> bool {
    forall|i: int|
        0 <= i < libs.len() ==> {
            &&& library_code(#[trigger] libs[i]) matches Some(code) && goes_onward(code)
            &&& ends_within(libs, i, libs.len())
        }
}

/// Tests whether a number is below the other one.
pub fn below(one: (u128, u128), other: (u128, u128)) -> (r: bool)
    ensures
        r == is_below(one, other),
{
    one.0 < other.0 || (one.0 == other.0 && one.1 < other.1)
}

/// The instructions of all the libraries, with the offsets where they start.
pub struct CodeMap {
    codes: Vec<Vec<Step>>,
    starts: Vec<Vec<bool>>,
}

impl CodeMap {
    /// What is held is the code of the given libraries.
    pub closed spec fn maps(&self, libs: Seq<Lib>) -> bool {
        &&& self.codes@.len() == libs.len()
        &&& self.starts@.len() == libs.len()
        &&& forall|i: int|
            0 <= i < libs.len() ==> {
                &&& library_code(#[trigger] libs[i]) == Some(self.codes@[i]@)
                &&& self.starts@[i]@.len() == OFFSETS
                &&& marks(self.starts@[i]@, self.codes@[i]@)
            }
    }
}

/// Tells for each offset whether an instruction of the code starts there.
spec fn marks(starts: Seq<bool>, code: Seq<Step>) -> bool {
    forall|pos: int| 0 <= pos < OFFSETS ==> #[trigger] starts[pos] == is_start(code, pos)
}

/// The offsets at which the instructions start.
fn starts_of(code: &Vec<Step>) -> (r: Vec<bool>)
    ensures
        r@.len() == OFFSETS,
        marks(r@, code@),
{
    let mut starts: Vec<bool> = Vec::new();
    while starts.len() < OFFSETS
        invariant
            starts@.len() <= OFFSETS,
            forall|pos: int| 0 <= pos < starts@.len() ==> !(#[trigger] starts@[pos]),
        decreases OFFSETS - starts@.len(),
    {
        starts.push(false);
    }
    let mut at: u128 = 0;
    let mut k: usize = 0;
    while k < code.len()
        invariant
            k <= code@.len(),
            at == offset_at(code@, k as int),
            at <= 65535 * k,
            starts@.len() == OFFSETS,
            forall|pos: int|
                0 <= pos < OFFSETS ==> (#[trigger] starts@[pos] <==> exists|m: int|
                    0 <= m < k && #[trigger] offset_at(code@, m) == pos),
        decreases code@.len() - k,
    {
        let ghost before = starts@;
        if at < 65536 {
            starts.set(at as usize, true);
        }
        proof {
            assert forall|pos: int| 0 <= pos < OFFSETS implies (#[trigger] starts@[pos]
                <==> exists|m: int| 0 <= m < k + 1 && #[trigger] offset_at(code@, m) == pos) by {
                if pos == at {
                    assert(offset_at(code@, k as int) == pos);
                } else {
                    assert(starts@[pos] == before[pos]);
                }
            }
        }
        at = at + code[k].size as u128;
        k = k + 1;
    }
    let mut pos: usize = 0;
    while pos < OFFSETS
        invariant
            pos <= OFFSETS,
            starts@.len() == OFFSETS,
            at == offset_at(code@, code@.len() as int),
            forall|p: int| 0 <= p < pos ==> #[trigger] starts@[p] == is_start(code@, p),
            forall|p: int|
                pos <= p < OFFSETS ==> (#[trigger] starts@[p] <==> exists|m: int|
                    0 <= m < code@.len() && #[trigger] offset_at(code@, m) == p),
        decreases OFFSETS - pos,
    {
        if pos as u128 >= at {
            starts.set(pos, true);
        }
        pos = pos + 1;
    }
    starts
}

/// Reads the code of the libraries; nothing where the code of one ends inside of an instruction.
pub fn read_code(libs: &Vec<Lib>) -> (r: Option<CodeMap>)
    ensures
        match r {
            Some(map) => map.maps(libs@),
            None => exists|i: int|
                0 <= i < libs@.len() && library_code(#[trigger] libs@[i]) is None,
        },
{
    let mut codes: Vec<Vec<Step>> = Vec::new();
    let mut starts: Vec<Vec<bool>> = Vec::new();
    let mut i: usize = 0;
    while i < libs.len()
        invariant
            i <= libs@.len(),
            codes@.len() == i,
            starts@.len() == i,
            forall|k: int|
                0 <= k < i ==> {
                    &&& library_code(#[trigger] libs@[k]) == Some(codes@[k]@)
                    &&& starts@[k]@.len() == OFFSETS
                    &&& marks(starts@[k]@, codes@[k]@)
                },
        decreases libs@.len() - i,
    {
        match code_of(&libs[i]) {
            Some(code) => {
                starts.push(starts_of(&code));
                codes.push(code);
            },
            None => {
                assert(library_code(libs@[i as int]) is None);
                return None;
            },
        }
        i = i + 1;
    }
    Some(CodeMap { codes, starts })
}

/// Tests whether a place is the start of an instruction.
pub fn site_lands(libs: &Vec<Lib>, map: &CodeMap, site: (LibId, u16)) -> (r: bool)
    requires
        map.maps(libs@),
    ensures
        r == lands(libs@, site),
{
    let mut j: usize = 0;
    while j < libs.len()
        invariant
            j <= libs@.len(),
            map.maps(libs@),
            forall|k: int|
                0 <= k < j && library_id(#[trigger] libs@[k]) == site.0 ==> (library_code(
                    libs@[k],
                ) matches Some(code) && is_start(code, site.1 as int)),
        decreases libs@.len() - j,
    {
        if has_library_id(&libs[j], site.0) && !map.starts[j][site.1 as usize] {
            assert(library_code(libs@[j as int]) == Some(map.codes@[j as int]@));
            return false;
        }
        j = j + 1;
    }
    true
}

/// Tests whether an instruction at the given offset is sound.
fn step_fits(
    libs: &Vec<Lib>,
    map: &CodeMap,
    i: usize,
    k: usize,
    at: u128,
    order: (u128, u128),
) -> (r: bool)
    requires
        map.maps(libs@),
        i < libs@.len(),
        k < map.codes@[i as int]@.len(),
        at == offset_at(map.codes@[i as int]@, k as int),
    ensures
        r == step_is_sound(libs@, map.codes@[i as int]@, k as int, order),
{
    let step = map.codes[i][k];
    let ghost code = map.codes@[i as int]@;
    assert(library_code(libs@[i as int]) == Some(code));
    if step.negates {
        return false;
    }
    if let Some(number) = step.constant {
        if !below(halves_of(number), order) {
            return false;
        }
    }
    if let Some(pos) = target_of(step, at) {
        assert(local_target(code, k as int) == Some(pos as int));
        if !map.starts[i][pos as usize] {
            return false;
        }
    }
    match step.remote {
        Some(site) => site_lands(libs, map, site),
        None => true,
    }
}

/// Where an instruction at the given offset may go inside of its library.
fn target_of(step: Step, at: u128) -> (r: Option<u16>)
    ensures
        match step.local {
            Target::Following => r is None,
            Target::At(pos) => r == Some(pos),
            Target::By(shift) => match r {
                Some(pos) => pos == at + shift,
                None => !(0 <= at + shift < OFFSETS),
            },
        },
{
    match step.local {
        Target::Following => None,
        Target::At(pos) => Some(pos),
        Target::By(shift) => {
            if at > 65663 {
                return None;
            }
            let pos: i64 = at as i64 + shift as i64;
            if 0 <= pos && pos < 65536 {
                Some(pos as u16)
            } else {
                None
            }
        },
    }
}

/// Tests whether all the instructions are sound.
pub fn code_fits(libs: &Vec<Lib>, map: &CodeMap, order: (u128, u128)) -> (r: bool)
    requires
        map.maps(libs@),
    ensures
        r == code_is_sound(libs@, order),
{
    let mut i: usize = 0;
    while i < libs.len()
        invariant
            i <= libs@.len(),
            map.maps(libs@),
            forall|m: int|
                0 <= m < i ==> library_is_sound(libs@, #[trigger] libs@[m], order),
        decreases libs@.len() - i,
    {
        let ghost code = map.codes@[i as int]@;
        assert(library_code(libs@[i as int]) == Some(code));
        let mut at: u128 = 0;
        let mut k: usize = 0;
        while k < map.codes[i].len()
            invariant
                i < libs@.len(),
                map.maps(libs@),
                code == map.codes@[i as int]@,
                library_code(libs@[i as int]) == Some(code),
                k <= code.len(),
                at == offset_at(code, k as int),
                at <= 65535 * k,
                forall|m: int| 0 <= m < k ==> #[trigger] step_is_sound(libs@, code, m, order),
            decreases code.len() - k,
        {
            if !step_fits(libs, map, i, k, at, order) {
                proof {
                    assert(!step_is_sound(libs@, code, k as int, order));
                    assert(!library_is_sound(libs@, libs@[i as int], order));
                }
                return false;
            }
            at = at + map.codes[i][k].size as u128;
            k = k + 1;
        }
        i = i + 1;
    }
    true
}

/// Tests whether no instruction of a library goes back.
fn library_goes_onward(map: &CodeMap, i: usize) -> (r: bool)
    requires
        i < map.codes@.len(),
    ensures
        r == goes_onward(map.codes@[i as int]@),
{
    let ghost code = map.codes@[i as int]@;
    let mut at: u128 = 0;
    let mut k: usize = 0;
    while k < map.codes[i].len()
        invariant
            i < map.codes@.len(),
            code == map.codes@[i as int]@,
            k <= code.len(),
            at == offset_at(code, k as int),
            at <= 65535 * k,
            forall|m: int|
                0 <= m < k ==> (#[trigger] local_target(code, m) matches Some(pos) ==> offset_at(
                    code,
                    m,
                ) < pos),
        decreases code.len() - k,
    {
        let step = map.codes[i][k];
        if let Some(pos) = target_of(step, at) {
            assert(local_target(code, k as int) == Some(pos as int));
            if pos as u128 <= at {
                return false;
            }
        }
        at = at + step.size as u128;
        k = k + 1;
    }
    true
}

/// Tests whether an instruction of a library goes to none but the libraries told to end.
fn leads_to_ending(libs: &Vec<Lib>, map: &CodeMap, i: usize, ending: &Vec<bool>) -> (r: bool)
    requires
        map.maps(libs@),
        i < libs@.len(),
        ending@.len() == libs@.len(),
    ensures
        r == (forall|k: int, j: int|
            0 <= j < libs@.len() && #[trigger] leads(libs@, i as int, k, j) ==> ending@[j]),
{
    let ghost code = map.codes@[i as int]@;
    assert(library_code(libs@[i as int]) == Some(code));
    let mut k: usize = 0;
    while k < map.codes[i].len()
        invariant
            i < map.codes@.len(),
            code == map.codes@[i as int]@,
            library_code(libs@[i as int]) == Some(code),
            ending@.len() == libs@.len(),
            k <= code.len(),
            forall|m: int, j: int|
                m < k && 0 <= j < libs@.len() && #[trigger] leads(libs@, i as int, m, j)
                    ==> ending@[j],
        decreases code.len() - k,
    {
        if let Some(site) = map.codes[i][k].remote {
            let mut j: usize = 0;
            while j < libs.len()
                invariant
                    i < map.codes@.len(),
                    code == map.codes@[i as int]@,
                    library_code(libs@[i as int]) == Some(code),
                    ending@.len() == libs@.len(),
                    k < code.len(),
                    code[k as int].remote == Some(site),
                    j <= libs@.len(),
                    forall|m: int|
                        0 <= m < j && #[trigger] leads(libs@, i as int, k as int, m)
                            ==> ending@[m],
                decreases libs@.len() - j,
            {
                if has_library_id(&libs[j], site.0) && !ending[j] {
                    assert(leads(libs@, i as int, k as int, j as int));
                    return false;
                }
                j = j + 1;
            }
        }
        k = k + 1;
    }
    true
}

/// Tests whether the code has no way back.
pub fn code_runs_out(libs: &Vec<Lib>, map: &CodeMap) -> (r: bool)
    requires
        map.maps(libs@),
    ensures
        r == code_ends(libs@),
{
    let mut ending: Vec<bool> = Vec::new();
    let mut i: usize = 0;
    while i < libs.len()
        invariant
            i <= libs@.len(),
            map.maps(libs@),
            ending@.len() == i,
            forall|m: int|
                0 <= m < i ==> (library_code(#[trigger] libs@[m]) matches Some(code)
                    && goes_onward(code)),
            forall|m: int| 0 <= m < i ==> !(#[trigger] ending@[m]),
        decreases libs@.len() - i,
    {
        assert(library_code(libs@[i as int]) == Some(map.codes@[i as int]@));
        if !library_goes_onward(map, i) {
            return false;
        }
        ending.push(false);
        i = i + 1;
    }
    let mut depth: usize = 0;
    while depth < libs.len()
        invariant
            depth <= libs@.len(),
            map.maps(libs@),
            ending@.len() == libs@.len(),
            forall|m: int|
                0 <= m < libs@.len() ==> (library_code(#[trigger] libs@[m]) matches Some(code)
                    && goes_onward(code)),
            forall|m: int|
                0 <= m < libs@.len() ==> #[trigger] ending@[m] == ends_within(
                    libs@,
                    m,
                    depth as nat,
                ),
        decreases libs@.len() - depth,
    {
        let mut next: Vec<bool> = Vec::new();
        let mut j: usize = 0;
        while j < libs.len()
            invariant
                j <= libs@.len(),
                map.maps(libs@),
                next@.len() == j,
                ending@.len() == libs@.len(),
                forall|m: int|
                    0 <= m < libs@.len() ==> #[trigger] ending@[m] == ends_within(
                        libs@,
                        m,
                        depth as nat,
                    ),
                forall|m: int|
                    0 <= m < j ==> #[trigger] next@[m] == ends_within(
                        libs@,
                        m,
                        (depth + 1) as nat,
                    ),
            decreases libs@.len() - j,
        {
            let within = leads_to_ending(libs, map, j, &ending);
            proof {
                lemma_one_deeper(libs@, j as int, ending@, depth as nat);
            }
            next.push(within);
            j = j + 1;
        }
        ending = next;
        depth = depth + 1;
    }
    let mut k: usize = 0;
    while k < libs.len()
        invariant
            k <= libs@.len(),
            ending@.len() == libs@.len(),
            forall|m: int|
                0 <= m < libs@.len() ==> (library_code(#[trigger] libs@[m]) matches Some(code)
                    && goes_onward(code)),
            forall|m: int|
                0 <= m < libs@.len() ==> #[trigger] ending@[m] == ends_within(
                    libs@,
                    m,
                    libs@.len(),
                ),
            forall|m: int| 0 <= m < k ==> ending@[m],
        decreases libs@.len() - k,
    {
        if !ending[k] {
            proof {
                assert(!ends_within(libs@, k as int, libs@.len()));
                assert(library_code(libs@[k as int]) == library_code(libs@[k as int]));
            }
            return false;
        }
        k = k + 1;
    }
    proof {
        assert forall|m: int| 0 <= m < libs@.len() implies {
            &&& library_code(#[trigger] libs@[m]) matches Some(code) && goes_onward(code)
            &&& ends_within(libs@, m, libs@.len())
        } by {
            assert(ending@[m]);
        }
    }
    true
}

/// A library ends one deeper than the libraries to which it goes.
proof fn lemma_one_deeper(libs: Seq<Lib>, i: int, ending: Seq<bool>, depth: nat)
    requires
        ending.len() == libs.len(),
        forall|m: int|
            0 <= m < libs.len() ==> #[trigger] ending[m] == ends_within(libs, m, depth),
    ensures
        ends_within(libs, i, depth + 1) == (forall|k: int, j: int|
            0 <= j < libs.len() && #[trigger] leads(libs, i, k, j) ==> ending[j]),
{
    assert((depth + 1 - 1) as nat == depth);
    if ends_within(libs, i, depth + 1) {
        assert forall|k: int, j: int|
            0 <= j < libs.len() && #[trigger] leads(libs, i, k, j) implies ending[j] by {
            assert(ends_within(libs, j, depth));
        }
    }
    if forall|k: int, j: int|
        0 <= j < libs.len() && #[trigger] leads(libs, i, k, j) ==> ending[j] {
        assert forall|k: int, j: int|
            0 <= j < libs.len() && #[trigger] leads(libs, i, k, j) implies ends_within(
            libs,
            j,
            depth,
        ) by {
            assert(ending[j]);
        }
    }
}

} // verus!
