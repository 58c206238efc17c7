# sonic

Ledger of a contract: an append-only history of operations, the memory which the valid ones of them
make, its roll back and return, and the exchange of operations between the parties of the contract.

`src/` is the verified library:

- `types`, `ultra`, `cells`, `raw`: contract data and the memory of a contract;
- `processed`, `aggregate`, `state`, `reader`, `sorted`: the memory as the APIs of a contract read it;
- `articles`, `code`, `field`: the rules of a contract, and when their verification runs through;
- `stock`, `ledger`, `chain`, `opid_set`, `apply`, `rollback`, `forward`: the ledger and what changes
  it;
- `export`, `stream`, `bytes`, `ledger_export`, `accept`: streams of deeds;
- `deed`, `dump`: calls and dumps;
- `percent`, `text`, `uri`, `uri_bridge`: call requests as URIs;
- `history`, `lineage`, `shown`, `recall`, `transfer`, `ledger_laws`, `export_laws`,
  `processed_laws`, `uri_laws`, `uri_plain`: the laws which hold of all this.

`app/` is the command-line tool: arguments, files and the code of the APIs.
