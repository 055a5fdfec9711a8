//! The `information_schema.keywords` table: a view over a fixed query.

use vstd::prelude::*;

verus! {

/// Identifier of a table: its number and the sequence number of its definition.
#[derive(Clone, Copy, Debug, PartialEq, Eq, Structural)]
pub struct TableIdent {
    pub table_id: u64,
    pub seq: u64,
}

/// How a table is stored and read.
#[derive(Debug, PartialEq, Eq)]
pub struct TableMeta {
    pub engine: String,
    /// Option names with their values, in the order they were set.
    pub options: Vec<(String, String)>,
}

/// The definition of a table.
#[derive(Debug, PartialEq, Eq)]
pub struct TableInfo {
    pub ident: TableIdent,
    pub desc: String,
    pub name: String,
    pub meta: TableMeta,
}

/// The table of SQL keywords.
pub struct KeywordsTable {}

impl KeywordsTable {
    /// The definition of the keywords table under the number `table_id`: a view whose
    /// one option is the query that lists the keywords.
    pub fn create(table_id: u64) -> (r: TableInfo)
        ensures
            r.ident == (TableIdent { table_id, seq: 0 }),
            r.desc@ == "'information_schema'.'keywords'"@,
            r.name@ == "keywords"@,
            r.meta.engine@ == "VIEW"@,
            r.meta.options@.len() == 1,
            r.meta.options@[0].0@ == "query"@,
            r.meta.options@[0].1@ == "SELECT 'CREATE' AS WORD, 1 AS RESERVED"@,
    {
        let mut options: Vec<(String, String)> = Vec::new();
        options.push(("query".to_owned(), "SELECT 'CREATE' AS WORD, 1 AS RESERVED".to_owned()));
        TableInfo {
            ident: TableIdent { table_id, seq: 0 },
            desc: "'information_schema'.'keywords'".to_owned(),
            name: "keywords".to_owned(),
            meta: TableMeta { engine: "VIEW".to_owned(), options },
        }
    }
}

} // verus!
