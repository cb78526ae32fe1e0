# Argus

Imports bank statements from Lloyds, Revolut and Amex into SQLite, categorises
them, and reports on the result. Accounts can also be read through the Enable
Banking API.

The library in `src/` is written in Verus: what each function returns is stated
in its contract and proved. The program in `app/` is ordinary Rust around it: the
command line, the database, the network and the clock.

| module           | what                                                          |
| ---------------- | ------------------------------------------------------------- |
| `text`, `decimal`, `money`, `calendar`, `clock`, `json` | the ground that the rest stands on |
| `statements`     | readers of the three banks' exports, ordinals, balance chains |
| `importer`       | what an import writes                                         |
| `csv_import`     | Revolut consolidated statements by a reader of their own      |
| `store`          | what the banking API returns, as it is stored                 |
| `enable_banking` | tokens, requests, replies, errors and paging of the bank API  |
| `sync`           | what a sync asks for, and what it does when that fails        |
| `connect`, `callback`, `gocardless` | authorising a bank                         |
| `cli`, `spending` | arguments, listings and the lines of the report              |

What is not proved is marked `#[verifier::external_body]` or
`assume_specification`: single calls into chrono, csv, jsonwebtoken, serde_json
and the standard library. The comment above each says what is taken on trust.

A row of a statement that gives no transaction is listed in the report of its
account, also where nothing else of that account could be read.

Laws that span several functions are the proof functions whose names begin with
`law_`.

## Run

    argus import bank_statements/     # bank auto-detected per file
    argus import <file> --dry-run     # parse and verify, write nothing
    argus inspect <file>              # structure of an unrecognised file
    argus categorise --reset          # apply rules again, keeping manual tags
    argus tag <id> "<category>"       # set one by hand
    argus report --months 6           # spending breakdown
    argus accounts                    # accounts and date coverage
    argus batches                     # import history
    argus bank connect "Lloyds Bank" GB --manual

The schema is read from `./migrations` when the program starts.
