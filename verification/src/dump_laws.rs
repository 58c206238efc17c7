//! What every dump keeps to: it leaves nothing out.

use crate::articles::Articles;
use crate::dump::{
    articles_files, codex_text, dumps, dumps_custom, dumps_operation, dumps_transition,
    last_readers, library_files, library_text, links_of, opid_text, padded, source_kind,
    spenders_of, ArticlesItem, LedgerDump, LedgerItem, OpLinks, OpValidity, SourceKind,
};
use crate::export::stash_of;
use crate::state::EffectiveState;
use crate::stock::StockView;
use crate::text::{all_digits, decimal, digits_value, is_digit, lemma_decimal};
use crate::types::{CellAddr, OperationView, Opid};
use crate::ultra::committed_opid;
use aluvm::Lib;
use vstd::prelude::*;

verus! {

/// The output numbers go up.
pub open spec fn numbers_ascend(list: Seq<(u16, Opid)>) -> bool {
    forall|i: int, j: int|
        0 <= i < j < list.len() ==> (#[trigger] list[i]).0 < (#[trigger] list[j]).0
}

/// The links of an operation name the spender of each destructible output which was destroyed and
/// the last reader of each immutable output which was read, each once, and nothing else. The
/// numbers of the outputs go up.
pub proof fn law_links_name_every_taker(
    model: StockView,
    opid: Opid,
    op: OperationView,
    links: OpLinks,
)
    requires
        op.well_formed(),
        links_of(model, opid, op, links),
    ensures
        forall|no: u16, child: Opid| #[trigger]
            links.spenders@.contains((no, child)) <==> {
                let addr = CellAddr { opid, pos: no };
                no < op.destructible_out.len() && model.spent.contains_key(addr)
                    && model.spent[addr] == child
            },
        forall|no: u16, child: Opid| #[trigger]
            links.readers@.contains((no, child)) <==> {
                let addr = CellAddr { opid, pos: no };
                no < op.immutable_out.len() && model.read.contains_key(addr)
                    && model.read[addr].len() > 0 && model.read[addr].last() == child
            },
        numbers_ascend(links.spenders@),
        numbers_ascend(links.readers@),
{
    lemma_spenders(model, opid, op.destructible_out.len());
    lemma_last_readers(model, opid, op.immutable_out.len());
}

/// The spenders of the first outputs.
proof fn lemma_spenders(model: StockView, opid: Opid, n: nat)
    requires
        n <= u16::MAX,
    ensures
        forall|no: u16, child: Opid| #[trigger]
            spenders_of(model, opid, n).contains((no, child)) <==> {
                let addr = CellAddr { opid, pos: no };
                no < n && model.spent.contains_key(addr) && model.spent[addr] == child
            },
        numbers_ascend(spenders_of(model, opid, n)),
    decreases n,
{
    if n > 0 {
        let k = (n - 1) as nat;
        lemma_spenders(model, opid, k);
        let earlier = spenders_of(model, opid, k);
        let list = spenders_of(model, opid, n);
        let last = CellAddr { opid, pos: k as u16 };
        assert forall|i: int| 0 <= i < earlier.len() implies (#[trigger] earlier[i]).0 < k by {
            assert(earlier.contains((earlier[i].0, earlier[i].1)));
        }
        assert forall|no: u16, child: Opid| #[trigger] list.contains((no, child)) <==> {
            let addr = CellAddr { opid, pos: no };
            no < n && model.spent.contains_key(addr) && model.spent[addr] == child
        } by {
            if model.spent.contains_key(last) {
                lemma_push_contains(earlier, (last.pos, model.spent[last]), (no, child));
            }
            assert(earlier.contains((no, child)) <==> no < k && model.spent.contains_key(
                CellAddr { opid, pos: no },
            ) && model.spent[CellAddr { opid, pos: no }] == child);
        }
    }
}

/// The last readers of the first outputs.
proof fn lemma_last_readers(model: StockView, opid: Opid, n: nat)
    requires
        n <= u16::MAX,
    ensures
        forall|no: u16, child: Opid| #[trigger]
            last_readers(model, opid, n).contains((no, child)) <==> {
                let addr = CellAddr { opid, pos: no };
                no < n && model.read.contains_key(addr) && model.read[addr].len() > 0
                    && model.read[addr].last() == child
            },
        numbers_ascend(last_readers(model, opid, n)),
    decreases n,
{
    if n > 0 {
        let k = (n - 1) as nat;
        lemma_last_readers(model, opid, k);
        let earlier = last_readers(model, opid, k);
        let list = last_readers(model, opid, n);
        let last = CellAddr { opid, pos: k as u16 };
        assert forall|i: int| 0 <= i < earlier.len() implies (#[trigger] earlier[i]).0 < k by {
            assert(earlier.contains((earlier[i].0, earlier[i].1)));
        }
        assert forall|no: u16, child: Opid| #[trigger] list.contains((no, child)) <==> {
            let addr = CellAddr { opid, pos: no };
            no < n && model.read.contains_key(addr) && model.read[addr].len() > 0
                && model.read[addr].last() == child
        } by {
            if model.read.contains_key(last) && model.read[last].len() > 0 {
                lemma_push_contains(earlier, (last.pos, model.read[last].last()), (no, child));
            }
            assert(earlier.contains((no, child)) <==> no < k && model.read.contains_key(
                CellAddr { opid, pos: no },
            ) && model.read[CellAddr { opid, pos: no }].len() > 0 && model.read[CellAddr {
                opid,
                pos: no,
            }].last() == child);
        }
    }
}

/// A longer list holds what the shorter one does, and the new element.
proof fn lemma_push_contains<X>(list: Seq<X>, new: X, x: X)
    ensures
        list.push(new).contains(x) <==> list.contains(x) || x == new,
{
    let more = list.push(new);
    if list.contains(x) {
        let i = choose|i: int| 0 <= i < list.len() && list[i] == x;
        assert(more[i] == x);
    }
    if x == new {
        assert(more[list.len() as int] == x);
    }
    if more.contains(x) {
        let i = choose|i: int| 0 <= i < more.len() && more[i] == x;
        if i < list.len() {
            assert(list[i] == x);
        }
    }
}

/// The number of a file is at least four digits long, and stands for the number itself: files with
/// different numbers have different names, and up to four digits they sort by their numbers.
pub proof fn law_padded_number_reads_back(n: nat)
    ensures
        all_digits(padded(n)),
        digits_value(padded(n)) == n,
        padded(n).len() >= 4,
        n < 10000 ==> padded(n).len() == 4,
        n >= 1000 ==> padded(n) == decimal(n),
{
    reveal_strlit("000");
    reveal_strlit("00");
    reveal_strlit("0");
    lemma_decimal(n);
    lemma_decimal_len(n);
    if n < 10 {
        assert("000"@ =~= seq!['0', '0', '0']);
        lemma_zeros(decimal(n), 3);
    } else if n < 100 {
        assert("00"@ =~= seq!['0', '0']);
        lemma_zeros(decimal(n), 2);
    } else if n < 1000 {
        assert("0"@ =~= seq!['0']);
        lemma_zeros(decimal(n), 1);
    }
}

/// So many zeros.
spec fn zeros(k: nat) -> Seq<char> {
    Seq::new(k, |i: int| '0')
}

/// Zeros in front change neither the number nor that all are digits.
proof fn lemma_zeros(text: Seq<char>, k: nat)
    requires
        all_digits(text),
    ensures
        all_digits(zeros(k) + text),
        digits_value(zeros(k) + text) == digits_value(text),
        k == 1 ==> zeros(k) == seq!['0'],
        k == 2 ==> zeros(k) == seq!['0', '0'],
        k == 3 ==> zeros(k) == seq!['0', '0', '0'],
    decreases text.len(),
{
    assert(k == 1 ==> zeros(k) =~= seq!['0']);
    assert(k == 2 ==> zeros(k) =~= seq!['0', '0']);
    assert(k == 3 ==> zeros(k) =~= seq!['0', '0', '0']);
    let whole = zeros(k) + text;
    assert forall|i: int| 0 <= i < whole.len() implies is_digit(#[trigger] whole[i]) by {
        if i >= k {
            assert(whole[i] == text[i - k]);
        }
    }
    if text.len() == 0 {
        assert(whole =~= zeros(k));
        lemma_zeros_value(k);
    } else {
        let less = text.drop_last();
        assert forall|i: int| 0 <= i < less.len() implies is_digit(#[trigger] less[i]) by {
            assert(less[i] == text[i]);
        }
        lemma_zeros(less, k);
        assert(whole.drop_last() =~= zeros(k) + less);
    }
}

/// Zeros stand for zero.
proof fn lemma_zeros_value(k: nat)
    ensures
        digits_value(zeros(k)) == 0,
    decreases k,
{
    if k > 0 {
        lemma_zeros_value((k - 1) as nat);
        assert(zeros(k).drop_last() =~= zeros((k - 1) as nat));
    }
}

/// The number of the decimal digits of a small number.
proof fn lemma_decimal_len(n: nat)
    ensures
        n < 10 ==> decimal(n).len() == 1,
        10 <= n < 100 ==> decimal(n).len() == 2,
        100 <= n < 1000 ==> decimal(n).len() == 3,
        1000 <= n < 10000 ==> decimal(n).len() == 4,
        n >= 1000 ==> decimal(n).len() >= 4,
    decreases n,
{
    if n >= 10 {
        lemma_decimal_len(n / 10);
    }
}

/// The articles go into one file for each of their parts: four for what all of them have, one for
/// each custom API by its name, two for each library by its id, and two for the types.
pub proof fn law_articles_have_a_file_for_each_part(articles: Articles)
    ensures
        ({
            let files = articles_files(articles);
            let n = articles.semantics.custom@.len() as int;
            let m = articles.codex_libs@.len() as int;
            &&& files.len() == 6 + n + 2 * m
            &&& files[0].1 == ArticlesItem::Genesis
            &&& files[0].0 == padded(0) + "-genesis-"@ + opid_text(
                committed_opid(articles.genesis@),
            ) + ".yaml"@
            &&& files[1] == ("meta.yaml"@, ArticlesItem::Meta)
            &&& files[2] == ("codex-"@ + codex_text(articles.codex) + ".yaml"@, ArticlesItem::Codex)
            &&& files[3] == ("api-default.yaml"@, ArticlesItem::DefaultApi)
            &&& forall|k: int|
                0 <= k < n ==> files[4 + k] == (
                    "api-"@ + (#[trigger] articles.semantics.custom@[k]).0@ + ".yaml"@,
                    ArticlesItem::CustomApi(k as usize),
                )
            &&& forall|k: int|
                0 <= k < m ==> files[4 + n + 2 * k] == (
                    library_text(#[trigger] articles.codex_libs@[k]) + ".alu"@,
                    ArticlesItem::Library(k as usize),
                ) && files[5 + n + 2 * k] == (
                    library_text(articles.codex_libs@[k]) + ".aluasm"@,
                    ArticlesItem::Listing(k as usize),
                )
            &&& files[4 + n + 2 * m] == ("types.sts"@, ArticlesItem::Types)
            &&& files[5 + n + 2 * m] == ("types.sty"@, ArticlesItem::TypesListing)
        }),
{
    let libs = articles.codex_libs@;
    lemma_library_files(libs, libs.len());
}

/// Each library has two files.
proof fn lemma_library_files(libs: Seq<Lib>, n: nat)
    ensures
        library_files(libs, n).len() == 2 * n,
        forall|k: int|
            0 <= k < n ==> library_files(libs, n)[2 * k] == (
                library_text(#[trigger] libs[k]) + ".alu"@,
                ArticlesItem::Library(k as usize),
            ) && library_files(libs, n)[2 * k + 1] == (
                library_text(libs[k]) + ".aluasm"@,
                ArticlesItem::Listing(k as usize),
            ),
    decreases n,
{
    if n > 0 {
        lemma_library_files(libs, (n - 1) as nat);
    }
}

/// One of the files of a dump has the given name and holds the given part.
pub open spec fn has_file(dump: LedgerDump, name: Seq<char>, item: LedgerItem) -> bool {
    exists|i: int|
        0 <= i < dump.files@.len() && (#[trigger] dump.files@[i]).0@ == name && dump.files@[i].1 == item
}

/// One of the files of a dump has the given name and holds links which name all those which take the
/// outputs of an operation, as the stock knows them.
pub open spec fn has_links(
    model: StockView,
    dump: LedgerDump,
    name: Seq<char>,
    opid: Opid,
    op: OperationView,
) -> bool {
    exists|i: int|
        0 <= i < dump.files@.len() && (#[trigger] dump.files@[i]).0@ == name && (
        dump.files@[i].1 matches LedgerItem::Links(links) && names_takers(model, opid, op, links))
}

/// The links name the spender of each destructible output which was destroyed and the last reader of
/// each immutable output which was read, and nothing else.
pub open spec fn names_takers(
    model: StockView,
    opid: Opid,
    op: OperationView,
    links: OpLinks,
) -> bool {
    &&& forall|no: u16, child: Opid| #[trigger]
        links.spenders@.contains((no, child)) <==> {
            let addr = CellAddr { opid, pos: no };
            no < op.destructible_out.len() && model.spent.contains_key(addr) && model.spent[addr]
                == child
        }
    &&& forall|no: u16, child: Opid| #[trigger]
        links.readers@.contains((no, child)) <==> {
            let addr = CellAddr { opid, pos: no };
            no < op.immutable_out.len() && model.read.contains_key(addr) && model.read[addr].len() > 0
                && model.read[addr].last() == child
        }
}

/// A dump holds every operation of the stash with its links, every transition of the trace, the
/// default state, the raw state and the state of each custom API, each in a file of its own and under
/// its own name; and it has no other file.
pub proof fn law_dump_leaves_nothing_out(model: StockView, state: EffectiveState, dump: LedgerDump)
    requires
        state.well_formed(),
        state@ == model.state,
        dumps(model, state.aux, dump),
        forall|i: int| 0 <= i < model.stash.len() ==> (#[trigger] model.stash[i]).1.well_formed(),
    ensures
        dump.operations@.len() == model.stash.len(),
        forall|i: int|
            0 <= i < model.stash.len() ==> (#[trigger] dump.operations@[i]).0 == model.stash[i].0
                && dump.operations@[i].1@ == model.stash[i].1,
        forall|i: int|
            0 <= i < model.stash.len() ==> has_file(
                dump,
                padded((i + 1) as nat) + "-op-"@ + opid_text((#[trigger] model.stash[i]).0)
                    + ".yaml"@,
                LedgerItem::Operation(i as usize),
            ) && has_links(
                model,
                dump,
                padded((i + 1) as nat) + "-links-"@ + opid_text(model.stash[i].0) + ".yaml"@,
                model.stash[i].0,
                model.stash[i].1,
            ),
        forall|i: int|
            0 <= i < dump.trace@.len() ==> has_file(
                dump,
                padded((i + 1) as nat) + "-trace-"@ + opid_text((#[trigger] dump.trace@[i]).0)
                    + ".yaml"@,
                LedgerItem::Transition(i as usize),
            ),
        has_file(dump, "state-default.yaml"@, LedgerItem::DefaultState),
        has_file(dump, "state-raw.yaml"@, LedgerItem::RawState),
        forall|name: Seq<char>| #[trigger]
            model.state.aux.contains_key(name) ==> exists|k: usize|
                has_file(dump, "state-"@ + name + ".yaml"@, LedgerItem::CustomState(k)),
        dump.files@.len() == 2 * model.stash.len() + dump.trace@.len() + 2 + state.aux.items().len(),
{
    let n = dump.operations@.len() as int;
    let m = dump.trace@.len() as int;
    assert(stash_of(dump.operations@).len() == n);
    assert forall|i: int| 0 <= i < model.stash.len() implies (#[trigger] dump.operations@[i]).0
        == model.stash[i].0 && dump.operations@[i].1@ == model.stash[i].1 by {
        assert(stash_of(dump.operations@)[i] == (dump.operations@[i].0, dump.operations@[i].1@));
    }
    assert forall|i: int| 0 <= i < model.stash.len() implies has_file(
        dump,
        padded((i + 1) as nat) + "-op-"@ + opid_text((#[trigger] model.stash[i]).0) + ".yaml"@,
        LedgerItem::Operation(i as usize),
    ) && has_links(
        model,
        dump,
        padded((i + 1) as nat) + "-links-"@ + opid_text(model.stash[i].0) + ".yaml"@,
        model.stash[i].0,
        model.stash[i].1,
    ) by {
        assert(dumps_operation(model, dump, i));
        let data = dump.files@[2 * i];
        let links = dump.files@[2 * i + 1];
        assert(data.1 == LedgerItem::Operation(i as usize));
        let (opid, op) = model.stash[i];
        if let LedgerItem::Links(list) = links.1 {
            law_links_name_every_taker(model, opid, op, list);
            assert(names_takers(model, opid, op, list));
        }
        assert(links.0@ == padded((i + 1) as nat) + "-links-"@ + opid_text(opid) + ".yaml"@);
    }
    assert forall|i: int| 0 <= i < m implies has_file(
        dump,
        padded((i + 1) as nat) + "-trace-"@ + opid_text((#[trigger] dump.trace@[i]).0) + ".yaml"@,
        LedgerItem::Transition(i as usize),
    ) by {
        assert(dumps_transition(dump, i));
        let file = dump.files@[2 * n + i];
        assert(file.1 == LedgerItem::Transition(i as usize));
    }
    let states = 2 * n + m;
    assert(dump.files@[states].1 == LedgerItem::DefaultState);
    assert(dump.files@[states + 1].1 == LedgerItem::RawState);
    assert forall|name: Seq<char>| #[trigger] model.state.aux.contains_key(name) implies exists|
        k: usize,
    |
        has_file(dump, "state-"@ + name + ".yaml"@, LedgerItem::CustomState(k)) by {
        assert(state.aux.content().contains_key(name));
        let i = choose|i: int| #[trigger] state.aux.has_at(name, i);
        assert(dumps_custom(dump, state.aux, i));
        let file = dump.files@[states + 2 + i];
        assert(file.1 == LedgerItem::CustomState(i as usize));
        assert(file.0@ == "state-"@ + name + ".yaml"@);
        assert(has_file(dump, "state-"@ + name + ".yaml"@, LedgerItem::CustomState(i as usize)));
    }
}

/// Whether an operation is valid is read back from its byte; the operation is valid if the byte is a
/// one, and with no other byte.
pub proof fn law_validity_is_read_back(
    validity: OpValidity,
    byte: u8,
    read: OpValidity,
    again: u8,
    valid: bool,
)
    requires
        call_ensures(OpValidity::to_byte, (validity,), byte),
        call_ensures(OpValidity::from_byte, (again,), read),
        call_ensures(OpValidity::is_valid, (read,), valid),
    ensures
        byte == again ==> read == validity,
        valid <==> again == 1,
{
}

/// A path is one of a contract if its extension is the word for it; any other extension is unknown, and
/// without an extension nothing is recognized.
pub proof fn law_contract_is_told_by_its_extension(extension: Option<&str>, kind: SourceKind)
    requires
        call_ensures(source_kind, (extension,), kind),
    ensures
        kind is Unrecognized <==> extension is None,
        kind is Contract <==> (extension matches Some(text) && text@ == seq![
            'c',
            'o',
            'n',
            't',
            'r',
            'a',
            'c',
            't',
        ]),
{
    reveal_strlit("contract");
    assert("contract"@ =~= seq!['c', 'o', 'n', 't', 'r', 'a', 'c', 't']);
}

} // verus!
