//! Dump of contract data into files: which files there are, how they are named and what they hold.

use crate::articles::Articles;
use crate::export::stash_of;
use crate::ledger::Ledger;
use crate::raw::Transition;
use crate::sorted::SortedMap;
use crate::state::EffectiveState;
use crate::stock::{readers, Stock, StockSession, StockView};
use crate::text::decimal;
use crate::types::{CellAddr, Operation, OperationView, Opid};
use crate::ultra::committed_opid;
use aluvm::Lib;
use amplify::ByteArray;
use baid64::DisplayBaid64;
use ultrasonic::Codex;
use ultrasonic::Opid as UltraOpid;
use vstd::prelude::*;

verus! {

/// The operations which take the outputs of an operation, by the output numbers.
#[derive(Debug)]
pub struct OpLinks {
    /// The last reader of each immutable output which was read.
    pub readers: Vec<(u16, Opid)>,
    /// The spender of each destructible output which was destroyed.
    pub spenders: Vec<(u16, Opid)>,
}

/// The last readers of the first immutable outputs of an operation, by the output numbers.
pub open spec fn last_readers(model: StockView, opid: Opid, n: nat) -> Seq<(u16, Opid)>
    decreases n,
{
    if n == 0 {
        Seq::empty()
    } else {
        let no = (n - 1) as u16;
        let earlier = last_readers(model, opid, (n - 1) as nat);
        let list = readers(model.read, CellAddr { opid, pos: no });
        if list.len() == 0 {
            earlier
        } else {
            earlier.push((no, list.last()))
        }
    }
}

/// The spenders of the first destructible outputs of an operation, by the output numbers.
pub open spec fn spenders_of(model: StockView, opid: Opid, n: nat) -> Seq<(u16, Opid)>
    decreases n,
{
    if n == 0 {
        Seq::empty()
    } else {
        let addr = CellAddr { opid, pos: (n - 1) as u16 };
        let earlier = spenders_of(model, opid, (n - 1) as nat);
        if model.spent.contains_key(addr) {
            earlier.push((addr.pos, model.spent[addr]))
        } else {
            earlier
        }
    }
}

/// The links are those of an operation.
pub open spec fn links_of(model: StockView, opid: Opid, op: OperationView, links: OpLinks) -> bool {
    &&& links.readers@ == last_readers(model, opid, op.immutable_out.len())
    &&& links.spenders@ == spenders_of(model, opid, op.destructible_out.len())
}

/// The text form of an operation id.
pub uninterp spec fn opid_text(opid: Opid) -> Seq<char>;

/// The text form of the id of a codex.
pub uninterp spec fn codex_text(codex: Codex) -> Seq<char>;

/// The mnemonic of the id of a library.
pub uninterp spec fn library_text(lib: Lib) -> Seq<char>;

/// `ultrasonic::Opid`, displayed.
#[verifier::external_body]
fn write_opid(opid: Opid) -> (r: String)
    ensures
        r@ == opid_text(opid),
{
    let mut id = [0u8; 32];
    id[..16].copy_from_slice(&opid.hi.to_be_bytes());
    id[16..].copy_from_slice(&opid.lo.to_be_bytes());
    UltraOpid::from_byte_array(id).to_string()
}

/// `ultrasonic::Codex::codex_id`, displayed in the alternate form.
#[verifier::external_body]
fn write_codex_id(codex: &Codex) -> (r: String)
    ensures
        r@ == codex_text(*codex),
{
    format!("{:#}", codex.codex_id())
}

/// `baid64::DisplayBaid64::to_baid64_mnemonic` of `aluvm::Lib::lib_id`.
#[verifier::external_body]
fn write_library_id(lib: &Lib) -> (r: String)
    ensures
        r@ == library_text(*lib),
{
    lib.lib_id().to_baid64_mnemonic()
}

/// Decimal digits of a number, with zeros in front up to four digits.
pub open spec fn padded(n: nat) -> Seq<char> {
    if n < 10 {
        "000"@ + decimal(n)
    } else if n < 100 {
        "00"@ + decimal(n)
    } else if n < 1000 {
        "0"@ + decimal(n)
    } else {
        decimal(n)
    }
}

/// Writes the decimal digits of a number.
fn push_decimal(out: &mut String, n: u64)
    ensures
        final(out)@ == old(out)@ + decimal(n as nat),
    decreases n,
{
    let ghost before = out@;
    if n >= 10 {
        push_decimal(out, n / 10);
    }
    let digit: u8 = 48 + (n % 10) as u8;
    out.push(digit as char);
    assert(out@ =~= before + decimal(n as nat));
}

/// Writes the decimal digits of a number, with zeros in front up to four digits.
fn write_padded(n: u64) -> (r: String)
    ensures
        r@ == padded(n as nat),
{
    let mut out = if n < 10 {
        "000".to_owned()
    } else if n < 100 {
        "00".to_owned()
    } else if n < 1000 {
        "0".to_owned()
    } else {
        "".to_owned()
    };
    proof {
        reveal_strlit("");
        assert(""@ + decimal(n as nat) =~= decimal(n as nat));
    }
    push_decimal(&mut out, n);
    out
}

/// The name of a numbered file.
pub open spec fn numbered_name(n: nat, kind: Seq<char>, id: Seq<char>) -> Seq<char> {
    padded(n) + kind + id + ".yaml"@
}

/// Names a numbered file.
fn name_numbered(n: u64, kind: &str, id: &str) -> (r: String)
    ensures
        r@ == numbered_name(n as nat, kind@, id@),
{
    let mut name = write_padded(n);
    name.append(kind);
    name.append(id);
    name.append(".yaml");
    name
}

/// Joins three texts.
fn joined(head: &str, body: &str, tail: &str) -> (r: String)
    ensures
        r@ == head@ + body@ + tail@,
{
    let mut name = head.to_owned();
    name.append(body);
    name.append(tail);
    name
}

/// Part of the articles which goes into a file.
#[derive(Debug)]
pub enum ArticlesItem {
    Genesis,
    Meta,
    Codex,
    DefaultApi,
    /// API with the given number among the custom ones.
    CustomApi(usize),
    /// Library with the given number.
    Library(usize),
    /// Disassembly of the library with the given number.
    Listing(usize),
    Types,
    TypesListing,
}

/// The files of the parts which all the articles have.
pub open spec fn common_files(articles: Articles) -> Seq<(Seq<char>, ArticlesItem)> {
    seq![
        (
            numbered_name(0, "-genesis-"@, opid_text(committed_opid(articles.genesis@))),
            ArticlesItem::Genesis,
        ),
        ("meta.yaml"@, ArticlesItem::Meta),
        ("codex-"@ + codex_text(articles.codex) + ".yaml"@, ArticlesItem::Codex),
        ("api-default.yaml"@, ArticlesItem::DefaultApi),
    ]
}

/// The files of the custom APIs.
pub open spec fn api_files(articles: Articles) -> Seq<(Seq<char>, ArticlesItem)> {
    Seq::new(
        articles.semantics.custom@.len(),
        |k: int|
            (
                "api-"@ + articles.semantics.custom@[k].0@ + ".yaml"@,
                ArticlesItem::CustomApi(k as usize),
            ),
    )
}

/// The files of the articles, in the order in which they are written.
pub open spec fn articles_files(articles: Articles) -> Seq<(Seq<char>, ArticlesItem)> {
    common_files(articles) + api_files(articles) + library_files(
        articles.codex_libs@,
        articles.codex_libs@.len(),
    ) + seq![("types.sts"@, ArticlesItem::Types), ("types.sty"@, ArticlesItem::TypesListing)]
}

/// The files of the first libraries: the code of each and its disassembly.
pub open spec fn library_files(libs: Seq<Lib>, n: nat) -> Seq<(Seq<char>, ArticlesItem)>
    decreases n,
{
    if n == 0 {
        Seq::empty()
    } else {
        let name = library_text(libs[n - 1]);
        library_files(libs, (n - 1) as nat).push(
            (name + ".alu"@, ArticlesItem::Library((n - 1) as usize)),
        ).push((name + ".aluasm"@, ArticlesItem::Listing((n - 1) as usize)))
    }
}

/// Models of named files.
pub open spec fn file_views<T>(files: Seq<(String, T)>) -> Seq<(Seq<char>, T)> {
    files.map_values(|file: (String, T)| (file.0@, file.1))
}

/// Lists the files of the articles, in the order in which they are written.
pub fn dump_articles(articles: &Articles) -> (r: Vec<(String, ArticlesItem)>)
    requires
        articles.well_formed(),
    ensures
        file_views(r@) == articles_files(*articles),
{
    let ghost custom = articles.semantics.custom@;
    let ghost libs = articles.codex_libs@;
    let mut files: Vec<(String, ArticlesItem)> = Vec::new();
    let genesis = write_opid(articles.genesis_opid());
    files.push((name_numbered(0, "-genesis-", genesis.as_str()), ArticlesItem::Genesis));
    files.push(("meta.yaml".to_owned(), ArticlesItem::Meta));
    let codex = write_codex_id(&articles.codex);
    files.push((joined("codex-", codex.as_str(), ".yaml"), ArticlesItem::Codex));
    files.push(("api-default.yaml".to_owned(), ArticlesItem::DefaultApi));
    let ghost first = file_views(files@);
    assert(first =~= common_files(*articles));
    let ghost apis = api_files(*articles);
    let mut k: usize = 0;
    assert(file_views(files@) =~= first + apis.take(0));
    while k < articles.semantics.custom.len()
        invariant
            k <= custom.len(),
            custom == articles.semantics.custom@,
            apis == api_files(*articles),
            file_views(files@) == first + apis.take(k as int),
        decreases custom.len() - k,
    {
        let ghost before = files@;
        let name = joined("api-", articles.semantics.custom[k].0.as_str(), ".yaml");
        files.push((name, ArticlesItem::CustomApi(k)));
        assert(file_views(files@) =~= file_views(before).push((name@, ArticlesItem::CustomApi(k))));
        assert(file_views(files@) =~= first + apis.take(k + 1));
        k = k + 1;
    }
    assert(file_views(files@) =~= first + apis + library_files(libs, 0));
    let mut m: usize = 0;
    while m < articles.codex_libs.len()
        invariant
            m <= libs.len(),
            libs == articles.codex_libs@,
            file_views(files@) == first + apis + library_files(libs, m as nat),
        decreases libs.len() - m,
    {
        let ghost before = files@;
        let id = write_library_id(&articles.codex_libs[m]);
        let mut code = id.clone();
        code.append(".alu");
        files.push((code, ArticlesItem::Library(m)));
        let mut listing = id;
        listing.append(".aluasm");
        files.push((listing, ArticlesItem::Listing(m)));
        proof {
            assert(file_views(files@) =~= file_views(before).push(
                (code@, ArticlesItem::Library(m)),
            ).push((listing@, ArticlesItem::Listing(m))));
            assert(file_views(files@) =~= first + apis + library_files(libs, (m + 1) as nat));
        }
        m = m + 1;
    }
    assert(apis.take(custom.len() as int) =~= apis);
    let ghost before = files@;
    files.push(("types.sts".to_owned(), ArticlesItem::Types));
    files.push(("types.sty".to_owned(), ArticlesItem::TypesListing));
    assert(file_views(files@) =~= file_views(before) + seq![
        ("types.sts"@, ArticlesItem::Types),
        ("types.sty"@, ArticlesItem::TypesListing),
    ]);
    files
}

/// Part of the ledger which goes into a file.
#[derive(Debug)]
pub enum LedgerItem {
    /// Operation with the given number in the stash.
    Operation(usize),
    /// Links of an operation.
    Links(OpLinks),
    /// Transition with the given number in the trace.
    Transition(usize),
    DefaultState,
    RawState,
    /// State of the custom API with the given number in the order of the names.
    CustomState(usize),
}

impl<S: Stock> Ledger<S> {
    /// Collects the operations which take the outputs of an operation.
    pub fn links(&mut self, opid: Opid, op: &Operation) -> (r: OpLinks)
        requires
            op@.well_formed(),
        ensures
            links_of(old(self).model(), opid, op@, r),
            final(self).model() == old(self).model(),
            final(self).id() == old(self).id(),
            final(self).configuration() == old(self).configuration(),
    {
        let ghost model = self.model();
        let mut read: Vec<(u16, Opid)> = Vec::new();
        let mut no: usize = 0;
        while no < op.immutable_out.len()
            invariant
                no <= op.immutable_out@.len() <= 65535,
                self.model() == model,
                self.id() == old(self).id(),
                self.configuration() == old(self).configuration(),
                read@ == last_readers(model, opid, no as nat),
            decreases op.immutable_out@.len() - no,
        {
            let list = self.read_by(CellAddr::new(opid, no as u16));
            if list.len() > 0 {
                read.push((no as u16, list[list.len() - 1]));
            }
            no = no + 1;
        }
        let mut spent: Vec<(u16, Opid)> = Vec::new();
        let mut no: usize = 0;
        while no < op.destructible_out.len()
            invariant
                no <= op.destructible_out@.len() <= 65535,
                self.model() == model,
                self.id() == old(self).id(),
                self.configuration() == old(self).configuration(),
                spent@ == spenders_of(model, opid, no as nat),
            decreases op.destructible_out@.len() - no,
        {
            if let Some(child) = self.spent_by(CellAddr::new(opid, no as u16)) {
                spent.push((no as u16, child));
            }
            no = no + 1;
        }
        OpLinks { readers: read, spenders: spent }
    }
}

/// Data of a ledger for a dump, and the files into which they go.
#[derive(Debug)]
pub struct LedgerDump {
    pub operations: Vec<(Opid, Operation)>,
    pub trace: Vec<(Opid, Transition)>,
    /// Names and contents of the files, in the order in which they are written.
    pub files: Vec<(String, LedgerItem)>,
}

/// The operation with the given number goes into two files: its data and its links.
pub open spec fn dumps_operation(model: StockView, dump: LedgerDump, i: int) -> bool {
    let (opid, op) = model.stash[i];
    let data = dump.files@[2 * i];
    let links = dump.files@[2 * i + 1];
    &&& data.0@ == numbered_name((i + 1) as nat, "-op-"@, opid_text(opid))
    &&& data.1 == LedgerItem::Operation(i as usize)
    &&& links.0@ == numbered_name((i + 1) as nat, "-links-"@, opid_text(opid))
    &&& links.1 matches LedgerItem::Links(list) && links_of(model, opid, op, list)
}

/// The transition with the given number goes into a file.
pub open spec fn dumps_transition(dump: LedgerDump, i: int) -> bool {
    let file = dump.files@[2 * dump.operations@.len() + i];
    &&& file.0@ == numbered_name((i + 1) as nat, "-trace-"@, opid_text(dump.trace@[i].0))
    &&& file.1 == LedgerItem::Transition(i as usize)
}

/// The state of the custom API with the given number goes into a file.
pub open spec fn dumps_custom<V>(dump: LedgerDump, aux: SortedMap<String, V>, i: int) -> bool {
    let file = dump.files@[2 * dump.operations@.len() + dump.trace@.len() + 2 + i];
    &&& file.0@ == "state-"@ + aux.items()[i].0@ + ".yaml"@
    &&& file.1 == LedgerItem::CustomState(i as usize)
}

/// The dump holds all the data of a ledger.
pub open spec fn dumps<V>(model: StockView, aux: SortedMap<String, V>, dump: LedgerDump) -> bool {
    let n = dump.operations@.len();
    let m = dump.trace@.len();
    let states = 2 * n + m;
    &&& stash_of(dump.operations@) == model.stash
    &&& dump.files@.len() == states + 2 + aux.items().len()
    &&& forall|i: int| 0 <= i < n ==> #[trigger] dumps_operation(model, dump, i)
    &&& forall|i: int| 0 <= i < m ==> #[trigger] dumps_transition(dump, i)
    &&& dump.files@[states as int].0@ == "state-default.yaml"@
    &&& dump.files@[states as int].1 == LedgerItem::DefaultState
    &&& dump.files@[states as int + 1].0@ == "state-raw.yaml"@
    &&& dump.files@[states as int + 1].1 == LedgerItem::RawState
    &&& forall|i: int| 0 <= i < aux.items().len() ==> #[trigger] dumps_custom(dump, aux, i)
}

/// The first files of a longer list stay what they are.
proof fn lemma_dump_grows(model: StockView, less: LedgerDump, more: LedgerDump, n: int, m: int)
    requires
        less.operations == more.operations,
        less.trace == more.trace,
        less.files@.is_prefix_of(more.files@),
        0 <= n,
        0 <= m,
        2 * n <= less.files@.len(),
        m > 0 ==> 2 * less.operations@.len() + m <= less.files@.len(),
        forall|i: int| 0 <= i < n ==> #[trigger] dumps_operation(model, less, i),
        forall|i: int| 0 <= i < m ==> #[trigger] dumps_transition(less, i),
    ensures
        forall|i: int| 0 <= i < n ==> #[trigger] dumps_operation(model, more, i),
        forall|i: int| 0 <= i < m ==> #[trigger] dumps_transition(more, i),
{
    let k = less.files@.len() as int;
    assert forall|j: int| 0 <= j < k implies less.files@[j] == more.files@[j] by {
        assert(more.files@.take(k)[j] == more.files@[j]);
    }
    assert forall|i: int| 0 <= i < n implies #[trigger] dumps_operation(model, more, i) by {
        assert(dumps_operation(model, less, i));
    }
    assert forall|i: int| 0 <= i < m implies #[trigger] dumps_transition(more, i) by {
        assert(dumps_transition(less, i));
    }
}

impl<S: Stock> Ledger<S> {
    /// Collects the data of the ledger for a dump.
    pub fn dump(&mut self) -> (r: LedgerDump)
        ensures
            final(self).model() == old(self).model(),
            final(self).id() == old(self).id(),
            final(self).configuration() == old(self).configuration(),
            exists|state: EffectiveState|
                #![trigger state.well_formed()]
                state@ == old(self).model().state && state.well_formed() && dumps(
                    old(self).model(),
                    state.aux,
                    r,
                ),
            forall|i: int|
                0 <= i < r.trace@.len() ==> old(self).model().trace.contains_key(
                    (#[trigger] r.trace@[i]).0,
                ) && old(self).model().trace[r.trace@[i].0] == r.trace@[i].1@,
            forall|opid: Opid| #[trigger]
                old(self).model().trace.contains_key(opid) ==> exists|i: int|
                    0 <= i < r.trace@.len() && (#[trigger] r.trace@[i]).0 == opid,
    {
        let ghost model = self.model();
        let operations = self.session().operations();
        let trace = self.session().trace();
        let mut dump = LedgerDump { operations, trace, files: Vec::new() };
        let ghost n = dump.operations@.len();
        let ghost m = dump.trace@.len();
        let mut i: usize = 0;
        while i < dump.operations.len()
            invariant
                i <= dump.operations@.len() == n,
                dump.trace@.len() == m,
                dump.operations@ == operations@,
                dump.trace == trace,
                stash_of(dump.operations@) == model.stash,
                forall|k: int|
                    0 <= k < dump.operations@.len() ==> (
                    #[trigger] dump.operations@[k]).1@.well_formed(),
                self.model() == model,
                self.id() == old(self).id(),
                self.configuration() == old(self).configuration(),
                dump.files@.len() == 2 * i,
                forall|k: int| 0 <= k < i ==> #[trigger] dumps_operation(model, dump, k),
            decreases dump.operations@.len() - i,
        {
            let ghost before = dump;
            let opid = dump.operations[i].0;
            let id = write_opid(opid);
            let links = self.links(opid, &dump.operations[i].1);
            let number: u64 = i as u64 + 1;
            dump.files.push(
                (name_numbered(number, "-op-", id.as_str()), LedgerItem::Operation(i)),
            );
            dump.files.push((name_numbered(number, "-links-", id.as_str()), LedgerItem::Links(links)));
            proof {
                assert(before.files@ =~= dump.files@.take(2 * i));
                lemma_dump_grows(model, before, dump, i as int, 0);
                assert(model.stash[i as int] == (opid, dump.operations@[i as int].1@));
                assert(dumps_operation(model, dump, i as int));
            }
            i = i + 1;
        }
        let mut j: usize = 0;
        while j < dump.trace.len()
            invariant
                j <= dump.trace@.len() == m,
                dump.operations@.len() == n,
                dump.operations@ == operations@,
                dump.trace == trace,
                dump.files@.len() == 2 * n + j,
                forall|k: int| 0 <= k < n ==> #[trigger] dumps_operation(model, dump, k),
                forall|k: int| 0 <= k < j ==> #[trigger] dumps_transition(dump, k),
            decreases dump.trace@.len() - j,
        {
            let ghost before = dump;
            let id = write_opid(dump.trace[j].0);
            let number: u64 = j as u64 + 1;
            dump.files.push(
                (name_numbered(number, "-trace-", id.as_str()), LedgerItem::Transition(j)),
            );
            proof {
                assert(before.files@ =~= dump.files@.take(before.files@.len() as int));
                lemma_dump_grows(model, before, dump, n as int, j as int);
                assert(dumps_transition(dump, j as int));
            }
            j = j + 1;
        }
        let ghost before = dump;
        dump.files.push(("state-default.yaml".to_owned(), LedgerItem::DefaultState));
        dump.files.push(("state-raw.yaml".to_owned(), LedgerItem::RawState));
        proof {
            assert(before.files@ =~= dump.files@.take(before.files@.len() as int));
            lemma_dump_grows(model, before, dump, n as int, m as int);
        }
        let state = self.state();
        let ghost states = 2 * n + m;
        let ghost base = dump;
        let mut k: usize = 0;
        while k < state.aux.len()
            invariant
                k <= state.aux.items().len(),
                dump.operations@.len() == n,
                dump.trace@.len() == m,
                dump.operations@ == operations@,
                dump.trace == trace,
                states == 2 * n + m,
                dump.files@.len() == states + 2 + k,
                forall|i: int| 0 <= i < n ==> #[trigger] dumps_operation(model, dump, i),
                forall|i: int| 0 <= i < m ==> #[trigger] dumps_transition(dump, i),
                dump.files@[states as int] == base.files@[states as int],
                dump.files@[states as int + 1] == base.files@[states as int + 1],
                forall|i: int| 0 <= i < k ==> #[trigger] dumps_custom(dump, state.aux, i),
            decreases state.aux.items().len() - k,
        {
            let ghost before = dump;
            let name = joined("state-", state.aux.at(k).0.as_str(), ".yaml");
            dump.files.push((name, LedgerItem::CustomState(k)));
            proof {
                assert(before.files@ =~= dump.files@.take(before.files@.len() as int));
                lemma_dump_grows(model, before, dump, n as int, m as int);
                assert forall|i: int| 0 <= i < k implies #[trigger] dumps_custom(
                    dump,
                    state.aux,
                    i,
                ) by {
                    assert(dumps_custom(before, state.aux, i));
                }
                assert(dumps_custom(dump, state.aux, k as int));
            }
            k = k + 1;
        }
        assert(state.well_formed());
        dump
    }
}

/// State of an operation in the persistent storage.
#[derive(Copy, Clone, PartialEq, Eq, Structural, Debug)]
pub enum OpValidity {
    Invalid,
    Valid,
}

impl OpValidity {
    /// Reads the state off its byte.
    pub fn from_byte(byte: u8) -> (r: OpValidity)
        ensures
            r == (if byte == 1 {
                OpValidity::Valid
            } else {
                OpValidity::Invalid
            }),
    {
        if byte == 1 {
            OpValidity::Valid
        } else {
            OpValidity::Invalid
        }
    }

    /// The byte of the state.
    pub fn to_byte(self) -> (r: u8)
        ensures
            r == (if self == OpValidity::Valid {
                1u8
            } else {
                0u8
            }),
    {
        if self == OpValidity::Valid {
            1
        } else {
            0
        }
    }

    /// Tests whether the operation is valid.
    pub fn is_valid(self) -> (r: bool)
        ensures
            r == (self == OpValidity::Valid),
    {
        self == OpValidity::Valid
    }
}

/// Kind of the data which a path stands for.
#[derive(Copy, Clone, PartialEq, Eq, Structural, Debug)]
pub enum SourceKind {
    /// The ledger of a contract.
    Contract,
    /// The extension is not recognized.
    UnknownExtension,
    /// The path has no extension.
    Unrecognized,
}

/// Tells the kind of the data by the extension of a path.
pub fn source_kind(extension: Option<&str>) -> (r: SourceKind)
    ensures
        r == (match extension {
            Some(text) => if text@ == "contract"@ {
                SourceKind::Contract
            } else {
                SourceKind::UnknownExtension
            },
            None => SourceKind::Unrecognized,
        }),
{
    match extension {
        Some(text) => {
            if text.to_owned() == "contract".to_owned() {
                SourceKind::Contract
            } else {
                SourceKind::UnknownExtension
            }
        },
        None => SourceKind::Unrecognized,
    }
}

} // verus!
