//! Shapes for schema introspection: tables, columns, indexes. The
//! queries that fill them run against the live database outside; drift
//! detection against these shapes is not implemented.
use vstd::prelude::*;

verus! {

pub struct ColumnInfo {
    pub name: String,
    pub data_type: String,
    pub kind: String,
}

pub struct TableInfo {
    pub keyspace: String,
    pub table_name: String,
    pub columns: Vec<ColumnInfo>,
    pub primary_key: Vec<String>,
}

pub struct IndexInfo {
    pub name: String,
    pub table_name: String,
    pub column_name: String,
    pub index_type: String,
}

} // verus!
