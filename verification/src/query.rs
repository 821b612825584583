//! Query-building vocabulary: joins, fields and the traits data models
//! implement to describe their tables.  The functions here only build
//! SQL syntax text from static declarations; running queries is the
//! caller's business.

use crate::strutil::{append_chars, chars_to_string, replace_chars, spec_join, spec_replace,
    str_to_chars};
use vstd::prelude::*;
use vstd::string::*;

verus! {

/// Anything that renders itself as SQL syntax relative to a local table.
pub trait IntoSyntax {
    /// The rendered syntax.
    spec fn syntax_spec(&self, local_table: Seq<char>) -> Seq<char>;

    /// Renders the syntax.
    fn as_syntax(&self, local_table: &str) -> (r: String)
        ensures
            r@ == self.syntax_spec(local_table@),
    ;
}

/// A join clause: which table to join, under what name, on which fields
/// and condition.
pub struct PostgresJoin {
    pub join_name: &'static str,
    pub join_type: &'static str,
    pub table: &'static str,
    pub local_field: &'static str,
    pub foreign_field: &'static str,
    pub condition: &'static str,
}

/// The text a join contributes to a read statement.
pub open spec fn join_read_chars(j: PostgresJoin, local_table: Seq<char>) -> Seq<char> {
    j.join_type@ + seq![' '] + j.table@ + seq![' '] + j.join_name@ + seq![' ', 'O', 'N', ' ']
        + local_table + seq!['.'] + j.local_field@ + seq![' '] + j.condition@ + seq![' ']
        + j.join_name@ + seq!['.'] + j.foreign_field@
}

/// The text a join contributes to a write statement.
pub open spec fn join_write_chars(j: PostgresJoin, local_table: Seq<char>) -> Seq<char> {
    seq!['F', 'R', 'O', 'M', ' '] + j.table@ + seq![' '] + local_table + seq![
        ' ',
        'W',
        'H',
        'E',
        'R',
        'E',
        ' ',
    ] + j.join_name@ + seq!['.'] + j.local_field@ + seq![' '] + j.condition@ + seq![' ']
        + j.join_name@ + seq!['.'] + j.foreign_field@
}

impl PostgresJoin {
    /// Renders this join for a read statement.
    pub fn to_read(&self, local_table: &str) -> (r: String)
        ensures
            r@ == join_read_chars(*self, local_table@),
    {
        let mut out: Vec<char> = Vec::new();
        let jt = str_to_chars(self.join_type);
        append_chars(&mut out, &jt);
        out.push(' ');
        let tb = str_to_chars(self.table);
        append_chars(&mut out, &tb);
        out.push(' ');
        let jn = str_to_chars(self.join_name);
        append_chars(&mut out, &jn);
        out.push(' ');
        out.push('O');
        out.push('N');
        out.push(' ');
        let lt = str_to_chars(local_table);
        append_chars(&mut out, &lt);
        out.push('.');
        let lf = str_to_chars(self.local_field);
        append_chars(&mut out, &lf);
        out.push(' ');
        let cn = str_to_chars(self.condition);
        append_chars(&mut out, &cn);
        out.push(' ');
        append_chars(&mut out, &jn);
        out.push('.');
        let ff = str_to_chars(self.foreign_field);
        append_chars(&mut out, &ff);
        proof {
            assert(out@ =~= join_read_chars(*self, local_table@));
        }
        chars_to_string(&out)
    }

    /// Renders this join for a write statement, which selects the
    /// returned row.
    pub fn to_write(&self, local_table: &str) -> (r: String)
        ensures
            r@ == join_write_chars(*self, local_table@),
    {
        let mut out: Vec<char> = Vec::new();
        out.push('F');
        out.push('R');
        out.push('O');
        out.push('M');
        out.push(' ');
        let tb = str_to_chars(self.table);
        append_chars(&mut out, &tb);
        out.push(' ');
        let lt = str_to_chars(local_table);
        append_chars(&mut out, &lt);
        out.push(' ');
        out.push('W');
        out.push('H');
        out.push('E');
        out.push('R');
        out.push('E');
        out.push(' ');
        let jn = str_to_chars(self.join_name);
        append_chars(&mut out, &jn);
        out.push('.');
        let lf = str_to_chars(self.local_field);
        append_chars(&mut out, &lf);
        out.push(' ');
        let cn = str_to_chars(self.condition);
        append_chars(&mut out, &cn);
        out.push(' ');
        append_chars(&mut out, &jn);
        out.push('.');
        let ff = str_to_chars(self.foreign_field);
        append_chars(&mut out, &ff);
        proof {
            assert(out@ =~= join_write_chars(*self, local_table@));
        }
        chars_to_string(&out)
    }
}

/// Where a read field comes from: the local table, an evaluated
/// expression, or a joined table.
pub enum PostgresFieldLocation {
    Local(&'static str),
    Expression(&'static str),
    Join(&'static str, &'static str),
}

/// One field to read, with the alias it is selected under.
pub struct PostgresField {
    pub alias: &'static str,
    pub location: PostgresFieldLocation,
}

/// The selected expression of a field: local fields qualify with the
/// table, expressions substitute the table for `{}`, joined fields
/// qualify with their table.
pub open spec fn field_expr_chars(f: PostgresField, local_table: Seq<char>) -> Seq<char> {
    match f.location {
        PostgresFieldLocation::Local(field) => local_table + seq!['.'] + field@,
        PostgresFieldLocation::Expression(expr) => spec_replace(
            expr@,
            seq!['{', '}'],
            local_table,
        ),
        PostgresFieldLocation::Join(table, field) => table@ + seq!['.'] + field@,
    }
}

/// The full selection text of a field: its expression aliased.
pub open spec fn field_syntax_chars(f: PostgresField, local_table: Seq<char>) -> Seq<char> {
    field_expr_chars(f, local_table) + seq![' ', 'A', 'S', ' '] + f.alias@
}

impl PostgresField {
    /// Renders this field for a select list.
    pub fn into_syntax(&self, local_table: &str) -> (r: String)
        ensures
            r@ == field_syntax_chars(*self, local_table@),
    {
        let mut out: Vec<char> = Vec::new();
        match &self.location {
            PostgresFieldLocation::Local(field) => {
                let lt = str_to_chars(local_table);
                append_chars(&mut out, &lt);
                out.push('.');
                let fc = str_to_chars(field);
                append_chars(&mut out, &fc);
            }
            PostgresFieldLocation::Expression(expr) => {
                let ec = str_to_chars(expr);
                let mut pat: Vec<char> = Vec::new();
                pat.push('{');
                pat.push('}');
                proof {
                    assert(pat@ =~= seq!['{', '}']);
                }
                let lt = str_to_chars(local_table);
                let rep = replace_chars(&ec, &pat, &lt);
                append_chars(&mut out, &rep);
            }
            PostgresFieldLocation::Join(table, field) => {
                let tc = str_to_chars(table);
                append_chars(&mut out, &tc);
                out.push('.');
                let fc = str_to_chars(field);
                append_chars(&mut out, &fc);
            }
        }
        out.push(' ');
        out.push('A');
        out.push('S');
        out.push(' ');
        let ac = str_to_chars(self.alias);
        append_chars(&mut out, &ac);
        proof {
            assert(out@ =~= field_syntax_chars(*self, local_table@));
        }
        chars_to_string(&out)
    }
}

impl IntoSyntax for &'static [&'static PostgresField] {
    open spec fn syntax_spec(&self, local_table: Seq<char>) -> Seq<char> {
        spec_join(
            self@.map_values(
                |f: &'static PostgresField| field_syntax_chars(*f, local_table),
            ),
            seq![','],
        )
    }

    /// Renders a select list: the fields' syntax joined with commas.
    fn as_syntax(&self, local_table: &str) -> (r: String) {
        let mut parts: Vec<Vec<char>> = Vec::new();
        let mut i: usize = 0;
        while i < self.len()
            invariant
                i <= self@.len(),
                parts@.len() == i,
                forall|j: int|
                    0 <= j < i ==> (#[trigger] parts@[j])@ == field_syntax_chars(
                        *self@[j],
                        local_table@,
                    ),
            decreases self@.len() - i,
        {
            let s = self[i].into_syntax(local_table);
            parts.push(str_to_chars(s.as_str()));
            i = i + 1;
        }
        proof {
            assert(parts@.map_values(|p: Vec<char>| p@) =~= self@.map_values(
                |f: &'static PostgresField| field_syntax_chars(*f, local_table@),
            ));
        }
        let mut sep: Vec<char> = Vec::new();
        sep.push(',');
        proof {
            assert(sep@ =~= seq![',']);
        }
        let joined = crate::strutil::join_chars(&parts, &sep);
        chars_to_string(&joined)
    }
}

impl IntoSyntax for &'static [&'static PostgresJoin] {
    open spec fn syntax_spec(&self, local_table: Seq<char>) -> Seq<char> {
        spec_join(
            self@.map_values(|j: &'static PostgresJoin| join_read_chars(*j, local_table)),
            seq![' '],
        )
    }

    /// Renders a join list: the joins' read syntax joined with spaces.
    fn as_syntax(&self, local_table: &str) -> (r: String) {
        let mut parts: Vec<Vec<char>> = Vec::new();
        let mut i: usize = 0;
        while i < self.len()
            invariant
                i <= self@.len(),
                parts@.len() == i,
                forall|j: int|
                    0 <= j < i ==> (#[trigger] parts@[j])@ == join_read_chars(
                        *self@[j],
                        local_table@,
                    ),
            decreases self@.len() - i,
        {
            let s = self[i].to_read(local_table);
            parts.push(str_to_chars(s.as_str()));
            i = i + 1;
        }
        proof {
            assert(parts@.map_values(|p: Vec<char>| p@) =~= self@.map_values(
                |j: &'static PostgresJoin| join_read_chars(*j, local_table@),
            ));
        }
        let mut sep: Vec<char> = Vec::new();
        sep.push(' ');
        proof {
            assert(sep@ =~= seq![' ']);
        }
        let joined = crate::strutil::join_chars(&parts, &sep);
        chars_to_string(&joined)
    }
}

/// Why a row could not be turned into a model value.
pub enum FromPostgresError {
    InvalidType(&'static str),
    MissingColumn(&'static str),
}

/// Names the table a model reads and writes.
pub trait PostgresTable {
    /// The table's name.
    fn table_name() -> &'static str;
}

/// Declares the joins a model's reads perform.
pub trait PostgresJoins {
    /// The joins to perform.
    fn joins() -> &'static [&'static PostgresJoin];
}

/// Declares the fields a model reads.
pub trait PostgresReadFields {
    /// The fields to read.
    fn read_fields() -> &'static [&'static PostgresField];
}

/// A model whose rows can be read: fields and joins together.
pub trait PostgresReadable: PostgresReadFields + PostgresJoins {

}

/// Declares the columns a model writes.
pub trait PostgresWriteFields {
    /// The columns to write.
    fn write_fields() -> &'static [&'static str];
}

/// Names a column of a model for the query builder.
pub trait ColumnKeys {
    /// The column name as it exists in the database.
    fn name(&self) -> &'static str;
}

} // verus!
