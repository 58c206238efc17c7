//! What stands where in a stream of deeds.

use crate::bytes::{
    big_endian, big_endian_value, lemma_big_endian_len, lemma_limits,
    lemma_little_endian_reads_back, little_endian, little_endian_value,
};
use crate::ledger_export::{deeds_bytes, entries_bytes, plain_deeds_bytes};
use crate::sorted::text_precedes;
use crate::stream::{
    after_blocks, header, header_bytes, id_bytes, law_header_reads_back, operation_bytes,
    operation_reading, operations_bytes, reports, stream_operations, HeaderError, HeaderFault,
    OperationReading, StreamError,
};
use crate::types::{AuthToken, CellAddr, ContractId, OperationView, Opid};
use vstd::arithmetic::power::{lemma_pow0, lemma_pow1, lemma_pow_adds, pow};
use vstd::prelude::*;

verus! {

/// A number is the sum of its bytes, each of which weighs 256 times the one after it, the highest
/// byte first.
pub proof fn law_big_endian_weighs_bytes(value: nat, n: nat)
    ensures
        big_endian(value, n).len() == n,
        n > 0 ==> big_endian(value, n)[n - 1] == value % 256,
        forall|i: int|
            0 <= i < n ==> #[trigger] big_endian(value, n)[i] == (value as int / pow(
                256,
                (n - 1 - i) as nat,
            )) % 256,
    decreases n,
{
    lemma_big_endian_len(value, n);
    if n > 0 {
        let k = (n - 1) as nat;
        law_big_endian_weighs_bytes(value / 256, k);
        lemma_big_endian_len(value / 256, k);
        let bytes = big_endian(value, n);
        let less = big_endian(value / 256, k);
        assert forall|i: int| 0 <= i < n implies #[trigger] bytes[i] == (value as int / pow(
            256,
            (n - 1 - i) as nat,
        )) % 256 by {
            if i < k {
                assert(bytes[i] == less[i]);
                let m = (k - 1 - i) as nat;
                lemma_pow_adds(256, 1, m);
                lemma_pow1(256);
                vstd::arithmetic::power::lemma_pow_positive(256, m);
                vstd::arithmetic::div_mod::lemma_div_denominator(value as int, 256, pow(256, m));
            } else {
                lemma_pow0(256);
            }
        }
    }
}

/// The same bytes, the lowest one first.
pub proof fn law_little_endian_weighs_bytes(value: nat, n: nat)
    ensures
        little_endian(value, n).len() == n,
        forall|i: int|
            0 <= i < n ==> #[trigger] little_endian(value, n)[i] == (value as int / pow(
                256,
                i as nat,
            )) % 256,
{
    law_big_endian_weighs_bytes(value, n);
    assert forall|i: int| 0 <= i < n implies #[trigger] little_endian(value, n)[i] == (value as int
        / pow(256, i as nat)) % 256 by {
        assert(little_endian(value, n)[i] == big_endian(value, n)[n - 1 - i]);
    }
}

/// A number in two and in four bytes, the lowest one first.
pub proof fn law_little_endian_value_weighs_bytes(bytes: Seq<u8>)
    ensures
        bytes.len() == 2 ==> little_endian_value(bytes) == bytes[0] + 256 * bytes[1],
        bytes.len() == 4 ==> little_endian_value(bytes) == bytes[0] + 256 * bytes[1] + 65536
            * bytes[2] + 16777216 * bytes[3],
{
    let back = bytes.reverse();
    reveal_with_fuel(big_endian_value, 5);
    if bytes.len() == 2 {
        assert(back.drop_last().drop_last() =~= Seq::empty());
        assert(back.last() == bytes[0]);
        assert(back.drop_last().last() == bytes[1]);
    }
    if bytes.len() == 4 {
        assert(back.drop_last().drop_last().drop_last().drop_last() =~= Seq::empty());
        assert(back.last() == bytes[0]);
        assert(back.drop_last().last() == bytes[1]);
        assert(back.drop_last().drop_last().last() == bytes[2]);
        assert(back.drop_last().drop_last().drop_last().last() == bytes[3]);
    }
}

/// A stream starts with a zero for its version, the bytes of the contract id, the highest one first,
/// and a zero for the number of extensions.
pub proof fn law_header_has_its_layout(id: ContractId)
    ensures
        header_bytes(id).len() == 34,
        header_bytes(id)[0] == 0,
        header_bytes(id)[33] == 0,
        forall|i: int|
            0 <= i < 16 ==> #[trigger] header_bytes(id)[1 + i] == (id.hi as int / pow(
                256,
                (15 - i) as nat,
            )) % 256,
        forall|i: int|
            0 <= i < 16 ==> #[trigger] header_bytes(id)[17 + i] == (id.lo as int / pow(
                256,
                (15 - i) as nat,
            )) % 256,
{
    law_big_endian_weighs_bytes(id.hi as nat, 16);
    law_big_endian_weighs_bytes(id.lo as nat, 16);
    assert forall|i: int| 0 <= i < 16 implies #[trigger] header_bytes(id)[1 + i] == (id.hi as int
        / pow(256, (15 - i) as nat)) % 256 by {
        assert(header_bytes(id)[1 + i] == big_endian(id.hi as nat, 16)[i]);
    }
    assert forall|i: int| 0 <= i < 16 implies #[trigger] header_bytes(id)[17 + i] == (id.lo as int
        / pow(256, (15 - i) as nat)) % 256 by {
        assert(header_bytes(id)[17 + i] == big_endian(id.lo as nat, 16)[i]);
    }
}

/// Blocks of extensions, each of which starts with its length.
pub open spec fn blocks(payloads: Seq<Seq<u8>>) -> Seq<u8>
    decreases payloads.len(),
{
    if payloads.len() == 0 {
        Seq::empty()
    } else {
        little_endian(payloads[0].len(), 2) + payloads[0] + blocks(payloads.skip(1))
    }
}

/// Reading skips all the extensions, whatever is in them, and comes to what follows them.
pub proof fn law_header_skips_extensions(id: ContractId, payloads: Seq<Seq<u8>>, rest: Seq<u8>)
    requires
        payloads.len() <= 255,
        forall|i: int| 0 <= i < payloads.len() ==> (#[trigger] payloads[i]).len() <= 65535,
    ensures
        header(seq![0u8] + id_bytes(id) + seq![payloads.len() as u8] + blocks(payloads) + rest)
            == Ok::<(ContractId, nat), HeaderFault>((id, 34 + blocks(payloads).len())),
{
    let bytes = seq![0u8] + id_bytes(id) + seq![payloads.len() as u8] + blocks(payloads) + rest;
    let plain = header_bytes(id) + blocks(payloads) + rest;
    lemma_big_endian_len(id.hi as nat, 16);
    lemma_big_endian_len(id.lo as nat, 16);
    law_header_reads_back(id, blocks(payloads) + rest);
    assert(header_bytes(id) + (blocks(payloads) + rest) =~= plain);
    assert(bytes.subrange(1, 33) =~= plain.subrange(1, 33));
    assert(bytes[33] == payloads.len());
    assert(bytes.skip(34) =~= blocks(payloads) + rest);
    lemma_skips(bytes, 34, payloads, rest);
}

/// Reading skips the blocks which stand at a place.
proof fn lemma_skips(bytes: Seq<u8>, at: nat, payloads: Seq<Seq<u8>>, rest: Seq<u8>)
    requires
        at <= bytes.len(),
        bytes.skip(at as int) == blocks(payloads) + rest,
        forall|i: int| 0 <= i < payloads.len() ==> (#[trigger] payloads[i]).len() <= 65535,
    ensures
        after_blocks(bytes, at, payloads.len()) == Ok::<nat, HeaderFault>(
            at + blocks(payloads).len(),
        ),
    decreases payloads.len(),
{
    if payloads.len() > 0 {
        let payload = payloads[0];
        let more = payloads.skip(1);
        lemma_limits();
        lemma_little_endian_reads_back(payload.len(), 2);
        let size = little_endian(payload.len(), 2);
        assert(bytes.skip(at as int).take(2) =~= size);
        assert(bytes.subrange(at as int, at as int + 2) =~= bytes.skip(at as int).take(2));
        let next = at + 2 + payload.len();
        assert(bytes.skip(at as int).len() == bytes.len() - at);
        assert(bytes.skip(next as int) =~= bytes.skip(at as int).skip(2 + payload.len() as int));
        assert(bytes.skip(next as int) =~= blocks(more) + rest);
        assert forall|i: int| 0 <= i < more.len() implies (#[trigger] more[i]).len() <= 65535 by {
            assert(more[i] == payloads[i + 1]);
        }
        lemma_skips(bytes, next, more, rest);
    } else {
        assert(blocks(payloads).len() == 0);
    }
}

/// A stream is cut short where its fixed part, or an extension which it announces, is not all there;
/// and a version which is not zero is not known.
pub proof fn law_cut_header_is_refused(bytes: Seq<u8>)
    ensures
        bytes.len() == 0 ==> header(bytes) == Err::<(ContractId, nat), HeaderFault>(
            HeaderFault::End,
        ),
        bytes.len() > 0 && bytes[0] != 0 ==> header(bytes) == Err::<(ContractId, nat), HeaderFault>(
            HeaderFault::Version(bytes[0]),
        ),
        bytes.len() > 0 && bytes[0] == 0 && bytes.len() < 34 ==> header(bytes) == Err::<
            (ContractId, nat),
            HeaderFault,
        >(HeaderFault::End),
        header(bytes) matches Ok((_, at)) ==> 34 + 2 * bytes[33] <= at <= bytes.len(),
{
    if bytes.len() >= 34 && bytes[0] == 0 {
        lemma_blocks_fit(bytes, 34, bytes[33] as nat);
    }
}

/// The blocks which were skipped are in the stream.
proof fn lemma_blocks_fit(bytes: Seq<u8>, at: nat, n: nat)
    requires
        at <= bytes.len(),
    ensures
        after_blocks(bytes, at, n) matches Ok(end) ==> at + 2 * n <= end <= bytes.len(),
    decreases n,
{
    if n > 0 && at + 2 <= bytes.len() {
        let len = little_endian_value(bytes.subrange(at as int, at as int + 2));
        if at + 2 + len <= bytes.len() {
            lemma_blocks_fit(bytes, at + 2 + len, (n - 1) as nat);
        }
    }
}

/// The bytes of operations are those of each of them, one after another: the bytes of two lists
/// follow each other, one operation has its own bytes, and no operation has none.
pub proof fn law_operations_follow_each_other(one: Seq<OperationView>, other: Seq<OperationView>)
    ensures
        operations_bytes(one + other) == operations_bytes(one) + operations_bytes(other),
        operations_bytes(Seq::<OperationView>::empty()).len() == 0,
        forall|op: OperationView|
            operations_bytes(seq![op]) == #[trigger] operation_bytes(op),
    decreases other.len(),
{
    assert forall|op: OperationView| operations_bytes(seq![op]) == #[trigger] operation_bytes(op) by {
        assert(seq![op].drop_last() =~= Seq::empty());
        assert(operations_bytes(seq![op].drop_last()) =~= Seq::empty());
        assert(seq![op].last() == op);
        assert(operations_bytes(seq![op]) =~= operation_bytes(op));
    }
    if other.len() == 0 {
        assert(one + other =~= one);
        assert(operations_bytes(one) + operations_bytes(other) =~= operations_bytes(one));
    } else {
        law_operations_follow_each_other(one, other.drop_last());
        assert((one + other).drop_last() =~= one + other.drop_last());
        assert((one + other).last() == other.last());
        assert(operations_bytes(one + other) =~= operations_bytes(one) + operations_bytes(other));
    }
}

/// Each operation is followed by its own auxiliary data: the bytes of two lists follow each other,
/// and one operation has its own bytes, then its data.
pub proof fn law_operations_are_followed_by_their_data(
    one: Seq<OperationView>,
    one_data: Seq<Seq<u8>>,
    other: Seq<OperationView>,
    other_data: Seq<Seq<u8>>,
)
    requires
        one.len() == one_data.len(),
        other.len() == other_data.len(),
    ensures
        entries_bytes(one + other, one_data + other_data) == entries_bytes(one, one_data)
            + entries_bytes(other, other_data),
        entries_bytes(Seq::<OperationView>::empty(), Seq::<Seq<u8>>::empty()).len() == 0,
        forall|op: OperationView, data: Seq<u8>|
            #![trigger operation_bytes(op) + data]
            entries_bytes(seq![op], seq![data]) == operation_bytes(op) + data,
    decreases other.len(),
{
    assert forall|op: OperationView, data: Seq<u8>|
        #![trigger operation_bytes(op) + data]
        entries_bytes(seq![op], seq![data]) == operation_bytes(op) + data by {
        assert(seq![op].drop_last() =~= Seq::empty());
        assert(entries_bytes(seq![op].drop_last(), seq![data].drop_last()) =~= Seq::empty());
        assert(seq![op].last() == op && seq![data].last() == data);
        assert(entries_bytes(seq![op], seq![data]) =~= operation_bytes(op) + data);
    }
    if other.len() == 0 {
        assert(one + other =~= one);
        assert(one_data + other_data =~= one_data);
        assert(entries_bytes(one, one_data) + entries_bytes(other, other_data) =~= entries_bytes(
            one,
            one_data,
        ));
    } else {
        law_operations_are_followed_by_their_data(
            one,
            one_data,
            other.drop_last(),
            other_data.drop_last(),
        );
        assert((one + other).drop_last() =~= one + other.drop_last());
        assert((one_data + other_data).drop_last() =~= one_data + other_data.drop_last());
        assert((one + other).last() == other.last());
        assert((one_data + other_data).last() == other_data.last());
        assert(entries_bytes(one + other, one_data + other_data) =~= entries_bytes(one, one_data)
            + entries_bytes(other, other_data));
    }
}

/// A stream holds the articles after its beginning, then the number of its operations in four bytes,
/// then the operations and nothing more.
pub proof fn law_stream_has_its_layout(
    id: ContractId,
    articles: Seq<u8>,
    ops: Seq<OperationView>,
)
    requires
        ops.len() <= u32::MAX,
    ensures
        ({
            let stream = plain_deeds_bytes(id, articles, ops);
            let n = articles.len() as int;
            &&& stream.take(34) == header_bytes(id)
            &&& stream.subrange(34, 34 + n) == articles
            &&& stream[34 + n] + 256 * stream[35 + n] + 65536 * stream[36 + n] + 16777216 * stream[37
                + n] == ops.len()
            &&& stream.skip(38 + n) == operations_bytes(ops)
        }),
{
    let stream = plain_deeds_bytes(id, articles, ops);
    let n = articles.len() as int;
    law_header_has_its_layout(id);
    lemma_limits();
    lemma_little_endian_reads_back(ops.len(), 4);
    let count = little_endian(ops.len(), 4);
    law_little_endian_value_weighs_bytes(count);
    assert(stream.take(34) =~= header_bytes(id));
    assert(stream.subrange(34, 34 + n) =~= articles);
    assert(stream.subrange(34 + n, 38 + n) =~= count);
    assert(stream[34 + n] == count[0] && stream[35 + n] == count[1] && stream[36 + n] == count[2]
        && stream[37 + n] == count[3]);
    assert(stream.skip(38 + n) =~= operations_bytes(ops));
}

/// A stream with auxiliary data holds those of genesis after the articles, and those of each
/// operation after it.
pub proof fn law_stream_with_data_has_its_layout(
    id: ContractId,
    articles: Seq<u8>,
    genesis_data: Seq<u8>,
    ops: Seq<OperationView>,
    data: Seq<Seq<u8>>,
)
    requires
        ops.len() <= u32::MAX,
    ensures
        ({
            let stream = deeds_bytes(id, articles, genesis_data, ops, data);
            let n = articles.len() as int;
            let m = n + genesis_data.len();
            &&& stream.take(34) == header_bytes(id)
            &&& stream.subrange(34, 34 + n) == articles
            &&& stream.subrange(34 + n, 34 + m) == genesis_data
            &&& stream[34 + m] + 256 * stream[35 + m] + 65536 * stream[36 + m] + 16777216 * stream[37
                + m] == ops.len()
            &&& stream.skip(38 + m) == entries_bytes(ops, data)
        }),
{
    let stream = deeds_bytes(id, articles, genesis_data, ops, data);
    let n = articles.len() as int;
    let m = n + genesis_data.len();
    law_header_has_its_layout(id);
    lemma_limits();
    lemma_little_endian_reads_back(ops.len(), 4);
    let count = little_endian(ops.len(), 4);
    law_little_endian_value_weighs_bytes(count);
    assert(stream.take(34) =~= header_bytes(id));
    assert(stream.subrange(34, 34 + n) =~= articles);
    assert(stream.subrange(34 + n, 34 + m) =~= genesis_data);
    assert(stream.subrange(34 + m, 38 + m) =~= count);
    assert(stream[34 + m] == count[0] && stream[35 + m] == count[1] && stream[36 + m] == count[2]
        && stream[37 + m] == count[3]);
    assert(stream.skip(38 + m) =~= entries_bytes(ops, data));
}

/// Ids and tokens are ordered as the numbers of which they hold the halves.
pub proof fn law_order_is_that_of_numbers(one: Opid, other: Opid, a: AuthToken, b: AuthToken)
    ensures
        one.precedes(other) <==> one.hi * 0x1_0000_0000_0000_0000_0000_0000_0000_0000 + one.lo
            < other.hi * 0x1_0000_0000_0000_0000_0000_0000_0000_0000 + other.lo,
        a.precedes(b) <==> a.hi * 0x1_0000_0000_0000_0000_0000_0000_0000_0000 + a.lo < b.hi
            * 0x1_0000_0000_0000_0000_0000_0000_0000_0000 + b.lo,
{
}

/// Of two different addresses, one comes before the other, and not the other way round: the outputs of
/// an operation stand together, by their numbers.
pub proof fn law_addresses_are_ordered(one: CellAddr, other: CellAddr, third: CellAddr)
    ensures
        !one.precedes(one),
        one != other ==> (one.precedes(other) <==> !other.precedes(one)),
        one.precedes(other) && other.precedes(third) ==> one.precedes(third),
        one.opid == other.opid ==> (one.precedes(other) <==> one.pos < other.pos),
        one.opid.precedes(other.opid) ==> one.precedes(other),
{
}

/// Texts are ordered by the first character in which they differ; of two texts, one of which begins
/// the other, the shorter one comes first.
pub proof fn law_texts_are_ordered_by_characters(one: Seq<char>, other: Seq<char>)
    ensures
        text_precedes(one, other) <==> exists|k: int|
            {
                &&& 0 <= k <= one.len()
                &&& k < other.len()
                &&& #[trigger] one.take(k) == other.take(k)
                &&& k < one.len() ==> one[k] < other[k]
            },
    decreases one.len(),
{
    if one.len() > 0 && other.len() > 0 {
        let a = one.skip(1);
        let b = other.skip(1);
        law_texts_are_ordered_by_characters(a, b);
        if one[0] == other[0] {
            if text_precedes(a, b) {
                let k = choose|k: int|
                    {
                        &&& 0 <= k <= a.len()
                        &&& k < b.len()
                        &&& #[trigger] a.take(k) == b.take(k)
                        &&& k < a.len() ==> a[k] < b[k]
                    };
                assert(one.take(k + 1) =~= seq![one[0]] + a.take(k));
                assert(other.take(k + 1) =~= seq![other[0]] + b.take(k));
                if k < a.len() {
                    assert(a[k] == one[k + 1] && b[k] == other[k + 1]);
                }
            }
            if exists|k: int|
                {
                    &&& 0 <= k <= one.len()
                    &&& k < other.len()
                    &&& #[trigger] one.take(k) == other.take(k)
                    &&& k < one.len() ==> one[k] < other[k]
                } {
                let k = choose|k: int|
                    {
                        &&& 0 <= k <= one.len()
                        &&& k < other.len()
                        &&& #[trigger] one.take(k) == other.take(k)
                        &&& k < one.len() ==> one[k] < other[k]
                    };
                assert(k > 0);
                assert(a.take(k - 1) =~= one.take(k).skip(1));
                assert(b.take(k - 1) =~= other.take(k).skip(1));
                if k < one.len() {
                    assert(a[k - 1] == one[k] && b[k - 1] == other[k]);
                }
            }
        } else {
            if one[0] < other[0] {
                assert(one.take(0) =~= other.take(0));
            }
            if exists|k: int|
                {
                    &&& 0 <= k <= one.len()
                    &&& k < other.len()
                    &&& #[trigger] one.take(k) == other.take(k)
                    &&& k < one.len() ==> one[k] < other[k]
                } {
                let k = choose|k: int|
                    {
                        &&& 0 <= k <= one.len()
                        &&& k < other.len()
                        &&& #[trigger] one.take(k) == other.take(k)
                        &&& k < one.len() ==> one[k] < other[k]
                    };
                if k > 0 {
                    assert(one.take(k)[0] == other.take(k)[0]);
                }
            }
        }
    } else if other.len() > 0 {
        assert(one.take(0) =~= other.take(0));
    }
}

/// Where some of the extensions are there, but not all which were announced, the stream ends too early.
/// If it ends in the length of an extension, the form of the stream is at fault; if it ends after the
/// length, the extension couldn't be read.
pub proof fn law_cut_extension_is_refused(
    id: ContractId,
    announced: u8,
    payloads: Seq<Seq<u8>>,
    rest: Seq<u8>,
)
    requires
        payloads.len() < announced,
        forall|i: int| 0 <= i < payloads.len() ==> (#[trigger] payloads[i]).len() <= 65535,
    ensures
        rest.len() < 2 ==> header(
            seq![0u8] + id_bytes(id) + seq![announced] + blocks(payloads) + rest,
        ) == Err::<(ContractId, nat), HeaderFault>(HeaderFault::End),
        2 <= rest.len() < 2 + rest[0] + 256 * rest[1] ==> header(
            seq![0u8] + id_bytes(id) + seq![announced] + blocks(payloads) + rest,
        ) == Err::<(ContractId, nat), HeaderFault>(HeaderFault::Extension),
{
    let bytes = seq![0u8] + id_bytes(id) + seq![announced] + blocks(payloads) + rest;
    let at = 34 + blocks(payloads).len();
    lemma_big_endian_len(id.hi as nat, 16);
    lemma_big_endian_len(id.lo as nat, 16);
    assert(bytes[33] == announced);
    assert(bytes.skip(34) =~= blocks(payloads) + rest);
    lemma_skips_some(bytes, 34, payloads, rest, (announced - payloads.len()) as nat);
    assert(bytes.len() == at + rest.len());
    if rest.len() >= 2 {
        assert(bytes.subrange(at as int, at as int + 2) =~= rest.take(2));
        law_little_endian_value_weighs_bytes(rest.take(2));
    }
}

/// Reading skips the blocks which stand at a place, and goes on after them.
proof fn lemma_skips_some(
    bytes: Seq<u8>,
    at: nat,
    payloads: Seq<Seq<u8>>,
    rest: Seq<u8>,
    others: nat,
)
    requires
        at <= bytes.len(),
        bytes.skip(at as int) == blocks(payloads) + rest,
        forall|i: int| 0 <= i < payloads.len() ==> (#[trigger] payloads[i]).len() <= 65535,
    ensures
        after_blocks(bytes, at, payloads.len() + others) == after_blocks(
            bytes,
            at + blocks(payloads).len(),
            others,
        ),
    decreases payloads.len(),
{
    if payloads.len() > 0 {
        let payload = payloads[0];
        let more = payloads.skip(1);
        lemma_limits();
        lemma_little_endian_reads_back(payload.len(), 2);
        let size = little_endian(payload.len(), 2);
        assert(bytes.skip(at as int).take(2) =~= size);
        assert(bytes.subrange(at as int, at as int + 2) =~= bytes.skip(at as int).take(2));
        let next = at + 2 + payload.len();
        assert(bytes.skip(at as int).len() == bytes.len() - at);
        assert(bytes.skip(next as int) =~= bytes.skip(at as int).skip(2 + payload.len() as int));
        assert(bytes.skip(next as int) =~= blocks(more) + rest);
        assert forall|i: int| 0 <= i < more.len() implies (#[trigger] more[i]).len() <= 65535 by {
            assert(more[i] == payloads[i + 1]);
        }
        lemma_skips_some(bytes, next, more, rest, others);
        assert(payloads.len() + others - 1 == more.len() + others);
    } else {
        assert(blocks(payloads).len() == 0);
    }
}

/// A fault in the beginning of a stream is reported as what it is: a version by its byte, an end in the
/// fixed part or in a length as one of the form, an end in an extension as one of the reading.
pub proof fn law_header_fault_is_reported(bytes: Seq<u8>, fault: HeaderFault, error: HeaderError)
    requires
        header(bytes) == Err::<(ContractId, nat), HeaderFault>(fault),
        reports(fault, error),
    ensures
        bytes.len() > 0 && bytes[0] != 0 <==> (error matches HeaderError::Decode(
            StreamError::UnsupportedVersion(version),
        )),
        error matches HeaderError::Decode(StreamError::UnsupportedVersion(version)) ==> version
            == bytes[0],
        bytes.len() == 0 || bytes[0] == 0 && bytes.len() < 34 ==> (error matches HeaderError::Decode(
            StreamError::UnexpectedEnd,
        )),
        error matches HeaderError::Io(reason) ==> reason is UnexpectedEnd && bytes.len() >= 34
            && bytes[0] == 0,
        fault is Extension <==> error is Io,
{
    law_cut_header_is_refused(bytes);
    if bytes.len() >= 34 && bytes[0] == 0 {
        lemma_blocks_fault(bytes, 34, bytes[33] as nat);
    }
}

/// A fault in the blocks is not one of the version.
proof fn lemma_blocks_fault(bytes: Seq<u8>, at: nat, n: nat)
    ensures
        after_blocks(bytes, at, n) matches Err(fault) ==> fault !is Version,
    decreases n,
{
    if n > 0 && at + 2 <= bytes.len() {
        let len = little_endian_value(bytes.subrange(at as int, at as int + 2));
        if at + 2 + len <= bytes.len() {
            lemma_blocks_fault(bytes, at + 2 + len, (n - 1) as nat);
        }
    }
}

/// Operations stand one after another: each of them is read at the place where the one before it is
/// over, the first one at the beginning.
pub open spec fn stand_at(bytes: Seq<u8>, ops: Seq<OperationView>, places: Seq<nat>) -> bool {
    &&& places.len() == ops.len() + 1
    &&& places[0] == 0
    &&& forall|k: int|
        0 <= k < ops.len() ==> places[k] <= places[k + 1] <= bytes.len() && operation_reading(
            bytes.skip(#[trigger] places[k] as int),
        ) == OperationReading::Read(ops[k], (places[k + 1] - places[k]) as nat)
}

/// Operations which stand one after another are all read, up to the number which is asked for. What
/// follows them is told apart: nothing, or something which is not an operation.
pub proof fn law_operations_are_read_until_a_fault(
    bytes: Seq<u8>,
    ops: Seq<OperationView>,
    places: Seq<nat>,
    n: nat,
)
    requires
        stand_at(bytes, ops, places),
    ensures
        n <= ops.len() ==> stream_operations(bytes, n) == (ops.take(n as int), false),
        n > ops.len() && operation_reading(bytes.skip(places.last() as int)) is End
            ==> stream_operations(bytes, n) == (ops, false),
        n > ops.len() && operation_reading(bytes.skip(places.last() as int)) is Fault
            ==> stream_operations(bytes, n) == (ops, true),
    decreases ops.len(),
{
    assert(bytes.skip(0) =~= bytes);
    if ops.len() > 0 {
        let len = places[1];
        let rest = bytes.skip(len as int);
        let more = ops.skip(1);
        let later = Seq::new(ops.len(), |k: int| (places[k + 1] - len) as nat);
        assert(operation_reading(bytes.skip(places[0] as int)) == OperationReading::Read(ops[0], len));
        lemma_places_ascend(bytes, ops, places);
        assert(later.len() == more.len() + 1);
        assert forall|k: int| 0 <= k < more.len() implies later[k] <= later[k + 1] <= rest.len()
            && operation_reading(rest.skip(#[trigger] later[k] as int)) == OperationReading::Read(
            more[k],
            (later[k + 1] - later[k]) as nat,
        ) by {
            assert(places[1] <= places[k + 1]);
            assert(operation_reading(bytes.skip(places[k + 1] as int)) == OperationReading::Read(
                ops[k + 1],
                (places[k + 2] - places[k + 1]) as nat,
            ));
            assert(rest.skip(later[k] as int) =~= bytes.skip(places[k + 1] as int));
        }
        assert(places[1] <= places[ops.len() as int]);
        assert(rest.skip(later.last() as int) =~= bytes.skip(places.last() as int));
        if n > 0 {
            law_operations_are_read_until_a_fault(rest, more, later, (n - 1) as nat);
            assert(seq![ops[0]] + more =~= ops);
            if n <= ops.len() {
                assert(seq![ops[0]] + more.take(n - 1) =~= ops.take(n as int));
            }
        } else {
            assert(ops.take(0) =~= Seq::empty());
        }
    } else {
        assert(ops =~= Seq::empty());
        assert(ops.take(0) =~= ops);
    }
}

/// Later operations stand no earlier than the second place.
proof fn lemma_places_ascend(bytes: Seq<u8>, ops: Seq<OperationView>, places: Seq<nat>)
    requires
        ops.len() > 0,
        stand_at(bytes, ops, places),
    ensures
        places[1] <= bytes.len(),
        forall|k: int| 1 <= k < places.len() ==> places[1] <= #[trigger] places[k] <= bytes.len(),
{
    assert(places[0] <= places[1] <= bytes.len());
    assert forall|k: int| 1 <= k < places.len() implies places[1] <= #[trigger] places[k]
        <= bytes.len() by {
        lemma_place_follows(bytes, ops, places, k);
    }
}

/// A place stands no earlier than the second one.
proof fn lemma_place_follows(bytes: Seq<u8>, ops: Seq<OperationView>, places: Seq<nat>, k: int)
    requires
        stand_at(bytes, ops, places),
        1 <= k < places.len(),
    ensures
        places[1] <= places[k] <= bytes.len(),
    decreases k,
{
    if k > 1 {
        lemma_place_follows(bytes, ops, places, k - 1);
        assert(places[k - 1] <= places[k] <= bytes.len());
    } else {
        assert(places[0] <= places[1] <= bytes.len());
    }
}

} // verus!
