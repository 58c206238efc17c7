//! Stream of deeds: the binary form in which the operations of a contract are passed around.
//!
//! A stream starts with a version byte, the contract id and blocks of extensions. After them go
//! the contract articles, the number of operations and the operations.

use crate::bytes::{
    big_endian, big_endian_value, lemma_big_endian_len, lemma_big_endian_limit,
    lemma_big_endian_reads_back, lemma_limits, little_endian_value, read_big_endian,
    read_little_endian, write_big_endian,
};
use crate::types::{ContractId, Operation, OperationView};
use crate::ultra::{from_ultra, operation_content, to_ultra};
use std::io;
use strict_encoding::DecodeError;
use strict_encoding::StrictDecode;
use strict_encoding::StrictEncode;
use strict_encoding::StrictReader;
use strict_encoding::StrictWriter;
use ultrasonic::Operation as UltraOperation;
use vstd::prelude::*;

verus! {

/// Version of the stream of deeds.
pub const DEEDS_VERSION: u16 = 0;

/// Size limit of what is kept in memory.
const NO_LIMIT: usize = usize::MAX;

/// Faults of a stream of deeds.
#[derive(Debug)]
pub enum StreamError {
    /// The stream ends too early.
    UnexpectedEnd,
    /// The version of the stream is not known.
    UnsupportedVersion(u8),
    /// An operation can't be decoded.
    Operation(String),
}

/// The binary form of an operation.
pub uninterp spec fn operation_bytes(op: OperationView) -> Seq<u8>;

/// What is read off the beginning of a sequence of bytes.
pub enum OperationReading {
    /// An operation and the number of its bytes.
    Read(OperationView, nat),
    /// The bytes end before the operation does.
    End,
    /// The bytes are not those of an operation.
    Fault,
}

/// The operation with which a sequence of bytes begins.
pub uninterp spec fn operation_reading(bytes: Seq<u8>) -> OperationReading;

/// Outcome of decoding an operation.
enum Decoded {
    Read(UltraOperation, usize),
    End,
    Fault(String),
}

/// Mathematical model of [`Decoded`].
spec fn reading_of(decoded: Decoded) -> OperationReading {
    match decoded {
        Decoded::Read(op, len) => OperationReading::Read(operation_content(op), len as nat),
        Decoded::End => OperationReading::End,
        Decoded::Fault(_) => OperationReading::Fault,
    }
}

/// `strict_encoding::StrictEncode::strict_encode` for an operation, into memory.
#[verifier::external_body]
fn encode_operation(op: &UltraOperation) -> (r: Vec<u8>)
    ensures
        r@ == operation_bytes(operation_content(*op)),
{
    let writer = StrictWriter::in_memory::<NO_LIMIT>();
    op.strict_encode(writer).expect("memory does not fail").unbox().unconfine()
}

/// `strict_encoding::StrictDecode::strict_decode` for an operation, from memory, starting with the
/// given byte. No more bytes are read than there are; no bytes are the end of a stream; and bytes
/// which begin with the binary form of an operation give that operation back.
#[verifier::external_body]
fn decode_operation(bytes: &Vec<u8>, at: usize) -> (r: Decoded)
    requires
        at <= bytes@.len(),
    ensures
        reading_of(r) == operation_reading(bytes@.skip(at as int)),
        r matches Decoded::Read(_, len) ==> len <= bytes@.len() - at,
        at == bytes@.len() ==> r is End,
        forall|op: OperationView|
            op.well_formed() && (#[trigger] operation_bytes(op)).is_prefix_of(bytes@.skip(at as int))
                ==> reading_of(r) == OperationReading::Read(op, operation_bytes(op).len()),
{
    let mut reader = StrictReader::in_memory::<NO_LIMIT>(&bytes[at..]);
    match UltraOperation::strict_decode(&mut reader) {
        Ok(op) => Decoded::Read(op, reader.into_cursor().position() as usize),
        Err(DecodeError::Io(e)) if e.kind() == io::ErrorKind::UnexpectedEof => Decoded::End,
        Err(e) => Decoded::Fault(e.to_string()),
    }
}

/// The bytes of a contract id.
pub open spec fn id_bytes(id: ContractId) -> Seq<u8> {
    big_endian(id.hi as nat, 16) + big_endian(id.lo as nat, 16)
}

/// The beginning of a stream of deeds: the version, the contract and the number of extensions,
/// which is zero.
pub open spec fn header_bytes(id: ContractId) -> Seq<u8> {
    seq![0u8] + id_bytes(id) + seq![0u8]
}

/// Faults in the beginning of a stream of deeds.
pub enum HeaderFault {
    /// The fixed part is cut short.
    End,
    /// The version is not known.
    Version(u8),
    /// An extension is cut short.
    Extension,
}

/// The place after blocks of extensions, each of which starts with its length.
pub open spec fn after_blocks(bytes: Seq<u8>, at: nat, n: nat) -> Result<nat, HeaderFault>
    decreases n,
{
    if n == 0 {
        Ok(at)
    } else if at + 2 > bytes.len() {
        Err(HeaderFault::End)
    } else {
        let len = little_endian_value(bytes.subrange(at as int, at as int + 2));
        if at + 2 + len > bytes.len() {
            Err(HeaderFault::Extension)
        } else {
            after_blocks(bytes, at + 2 + len, (n - 1) as nat)
        }
    }
}

/// The contract id which the bytes hold.
pub open spec fn id_of(bytes: Seq<u8>) -> ContractId {
    ContractId {
        hi: big_endian_value(bytes.take(16)) as u128,
        lo: big_endian_value(bytes.subrange(16, 32)) as u128,
    }
}

/// What the beginning of a stream of deeds holds: the contract id and the place where the articles
/// start.
pub open spec fn header(bytes: Seq<u8>) -> Result<(ContractId, nat), HeaderFault> {
    if bytes.len() < 1 {
        Err(HeaderFault::End)
    } else if bytes[0] != DEEDS_VERSION {
        Err(HeaderFault::Version(bytes[0]))
    } else if bytes.len() < 34 {
        Err(HeaderFault::End)
    } else {
        match after_blocks(bytes, 34, bytes[33] as nat) {
            Ok(at) => Ok((id_of(bytes.subrange(1, 33)), at)),
            Err(e) => Err(e),
        }
    }
}

/// The fault as the accepting side reports it.
pub open spec fn reports(fault: HeaderFault, error: HeaderError) -> bool {
    match fault {
        HeaderFault::End => error matches HeaderError::Decode(StreamError::UnexpectedEnd),
        HeaderFault::Version(v) => error matches HeaderError::Decode(
            StreamError::UnsupportedVersion(version),
        ) && version == v,
        HeaderFault::Extension => error matches HeaderError::Io(StreamError::UnexpectedEnd),
    }
}

/// Faults in the beginning of a stream: of its form or of reading it.
#[derive(Debug)]
pub enum HeaderError {
    Decode(StreamError),
    Io(StreamError),
}

/// Writes the beginning of a stream of deeds.
pub fn write_header(out: &mut Vec<u8>, contract_id: ContractId)
    ensures
        final(out)@ == old(out)@ + header_bytes(contract_id),
{
    let ghost before = out@;
    out.push(0);
    write_big_endian(out, contract_id.hi, 16);
    write_big_endian(out, contract_id.lo, 16);
    out.push(0);
    assert(out@ =~= before + header_bytes(contract_id));
}

/// Reads the beginning of a stream of deeds.
pub fn read_header(bytes: &Vec<u8>) -> (r: Result<(ContractId, usize), HeaderError>)
    ensures
        match header(bytes@) {
            Ok((id, at)) => r matches Ok((contract_id, start)) && contract_id == id && start == at
                && start <= bytes.len(),
            Err(fault) => r matches Err(e) && reports(fault, e),
        },
{
    if bytes.len() < 1 {
        return Err(HeaderError::Decode(StreamError::UnexpectedEnd));
    }
    if bytes[0] != 0 {
        return Err(HeaderError::Decode(StreamError::UnsupportedVersion(bytes[0])));
    }
    if bytes.len() < 34 {
        return Err(HeaderError::Decode(StreamError::UnexpectedEnd));
    }
    let hi = read_big_endian(bytes, 1, 16);
    let lo = read_big_endian(bytes, 17, 16);
    proof {
        let id = bytes@.subrange(1, 33);
        assert(bytes@.subrange(1, 17) =~= id.take(16));
        assert(bytes@.subrange(17, 33) =~= id.subrange(16, 32));
    }
    let mut at: usize = 34;
    let mut blocks: u8 = bytes[33];
    while blocks > 0
        invariant
            at <= bytes.len(),
            after_blocks(bytes@, at as nat, blocks as nat) == after_blocks(
                bytes@,
                34,
                bytes@[33] as nat,
            ),
            bytes.len() >= 34,
            bytes@[0] == 0,
            id_of(bytes@.subrange(1, 33)) == (ContractId { hi, lo }),
        decreases blocks,
    {
        if bytes.len() - at < 2 {
            return Err(HeaderError::Decode(StreamError::UnexpectedEnd));
        }
        let len = read_little_endian(bytes, at, 2);
        proof {
            let part = bytes@.subrange(at as int, at + 2);
            lemma_big_endian_limit(part.reverse());
            lemma_limits();
        }
        if ((bytes.len() - at - 2) as u128) < len {
            return Err(HeaderError::Io(StreamError::UnexpectedEnd));
        }
        at = at + 2 + len as usize;
        blocks = blocks - 1;
    }
    Ok((ContractId { hi, lo }, at))
}

/// The beginning of a stream of deeds is read back, whatever follows it.
pub proof fn law_header_reads_back(id: ContractId, rest: Seq<u8>)
    ensures
        header(header_bytes(id) + rest) == Ok::<(ContractId, nat), HeaderFault>((id, 34)),
{
    let bytes = header_bytes(id) + rest;
    lemma_big_endian_len(id.hi as nat, 16);
    lemma_big_endian_len(id.lo as nat, 16);
    lemma_limits();
    lemma_big_endian_reads_back(id.hi as nat, 16);
    lemma_big_endian_reads_back(id.lo as nat, 16);
    assert(bytes.subrange(1, 33).take(16) =~= big_endian(id.hi as nat, 16));
    assert(bytes.subrange(1, 33).subrange(16, 32) =~= big_endian(id.lo as nat, 16));
    assert(bytes[33] == 0);
}

/// The operations which a stream holds one after another, at most so many of them, and whether
/// something else follows them.
pub open spec fn stream_operations(bytes: Seq<u8>, n: nat) -> (Seq<OperationView>, bool)
    decreases n,
{
    if n == 0 {
        (Seq::empty(), false)
    } else {
        match operation_reading(bytes) {
            OperationReading::End => (Seq::empty(), false),
            OperationReading::Fault => (Seq::empty(), true),
            OperationReading::Read(op, len) => {
                let (rest, faulty) = stream_operations(bytes.skip(len as int), (n - 1) as nat);
                (seq![op] + rest, faulty)
            },
        }
    }
}

/// The bytes of operations, one after another.
pub open spec fn operations_bytes(ops: Seq<OperationView>) -> Seq<u8>
    decreases ops.len(),
{
    if ops.len() == 0 {
        Seq::empty()
    } else {
        operations_bytes(ops.drop_last()) + operation_bytes(ops.last())
    }
}

/// Each of the operations is well-formed.
pub open spec fn all_well_formed(ops: Seq<OperationView>) -> bool {
    forall|i: int| 0 <= i < ops.len() ==> (#[trigger] ops[i]).well_formed()
}

impl Operation {
    /// The binary form of the operation.
    pub fn to_bytes(&self) -> (r: Vec<u8>)
        requires
            self@.well_formed(),
        ensures
            r@ == operation_bytes(self@),
    {
        let op = to_ultra(self);
        encode_operation(&op)
    }
}

/// Outcome of reading an operation.
pub enum NextOperation {
    /// An operation and the place after it.
    Read(Operation, usize),
    /// The stream ends before the operation does.
    End,
    /// The bytes are not those of an operation.
    Fault(String),
}

/// Mathematical model of [`NextOperation`], for a reading from the given place.
pub open spec fn next_reading(next: NextOperation, at: usize) -> OperationReading {
    match next {
        NextOperation::Read(op, end) => OperationReading::Read(op@, (end - at) as nat),
        NextOperation::End => OperationReading::End,
        NextOperation::Fault(_) => OperationReading::Fault,
    }
}

/// Reads the operation which stands at the given place of a stream. An operation which was written
/// there is read back.
pub fn read_operation(bytes: &Vec<u8>, at: usize) -> (r: NextOperation)
    requires
        at <= bytes.len(),
    ensures
        next_reading(r, at) == operation_reading(bytes@.skip(at as int)),
        r matches NextOperation::Read(op, end) ==> at <= end <= bytes.len() && op@.well_formed(),
        at == bytes.len() ==> r is End,
        forall|op: OperationView|
            op.well_formed() && (#[trigger] operation_bytes(op)).is_prefix_of(bytes@.skip(at as int))
                ==> next_reading(r, at) == OperationReading::Read(op, operation_bytes(op).len()),
{
    match decode_operation(bytes, at) {
        Decoded::Read(op, len) => NextOperation::Read(from_ultra(op), at + len),
        Decoded::End => NextOperation::End,
        Decoded::Fault(e) => NextOperation::Fault(e),
    }
}

} // verus!
