//! Building SQL command text.

use vstd::prelude::*;
use vstd::string::*;
use crate::text::{join_strings, join_with, string_views};

verus! {

pub struct Command {
    pub command: String,
}

/// The rows of an insertion, each row's values joined with `, `.
pub open spec fn row_texts(items: Seq<Vec<String>>) -> Seq<Seq<char>> {
    items.map_values(|r: Vec<String>| join_with(string_views(r@), ", "@))
}

/// The characters of each string slice.
pub open spec fn str_views(parts: Seq<&str>) -> Seq<Seq<char>> {
    parts.map_values(|s: &str| s@)
}

impl Command {
    /// Ends the command with `;`.
    pub fn execute(&mut self)
        ensures
            final(self).command@ == old(self).command@.push(';'),
    {
        crate::text::push_char(&mut self.command, ';');
    }

    /// `SELECT columns FROM table`, the columns joined with `, `.
    pub fn select(columns: Vec<String>, table: &str) -> (res: Self)
        ensures
            res.command@ == "SELECT "@ + join_with(string_views(columns@), ", "@) + " FROM "@
                + table@,
    {
        let mut command = String::new();
        command.append("SELECT ");
        let joined = join_strings(&columns, ", ");
        command.append(joined.as_str());
        command.append(" FROM ");
        command.append(table);
        Command { command }
    }

    /// `INSERT INTO table (columns) VALUES (row), (row)`, each row's values
    /// joined with `, `.
    pub fn insert(columns: &str, items: Vec<Vec<String>>, table: &str) -> (res: Self)
        ensures
            res.command@ == "INSERT INTO "@ + table@ + " ("@ + columns@ + ") VALUES ("@ + join_with(
                row_texts(items@),
                "), ("@,
            ) + ")"@,
    {
        let mut elements: Vec<String> = Vec::new();
        let mut i: usize = 0;
        while i < items.len()
            invariant
                i <= items@.len(),
                string_views(elements@) == row_texts(items@.subrange(0, i as int)),
            decreases items@.len() - i,
        {
            let row = join_strings(&items[i], ", ");
            let ghost before = string_views(elements@);
            elements.push(row);
            assert(string_views(elements@) =~= before.push(row@));
            assert(row_texts(items@.subrange(0, i + 1 as int)) =~= row_texts(
                items@.subrange(0, i as int),
            ).push(row@));
            i += 1;
        }
        assert(items@.subrange(0, items@.len() as int) =~= items@);
        let mut command = String::new();
        command.append("INSERT INTO ");
        command.append(table);
        command.append(" (");
        command.append(columns);
        command.append(") VALUES (");
        let joined = join_strings(&elements, "), (");
        command.append(joined.as_str());
        command.append(")");
        Command { command }
    }

    /// Appends ` WHERE ` and the conditions joined with ` AND `.
    pub fn _where(self, condition: Vec<&str>) -> (res: Self)
        ensures
            res.command@ == self.command@ + " WHERE "@ + join_with(
                str_views(condition@),
                " AND "@,
            ),
    {
        let mut command = self.command;
        command.append(" WHERE ");
        let ghost start = command@;
        let mut i: usize = 0;
        while i < condition.len()
            invariant
                i <= condition@.len(),
                command@ == start + join_with(str_views(condition@.subrange(0, i as int)), " AND "@),
            decreases condition@.len() - i,
        {
            let ghost before = str_views(condition@.subrange(0, i as int));
            let ghost after = str_views(condition@.subrange(0, i + 1 as int));
            assert(after.drop_last() =~= before);
            assert(after.last() == condition@[i as int]@);
            if i > 0 {
                command.append(" AND ");
            }
            command.append(condition[i]);
            assert(command@ =~= start + join_with(after, " AND "@));
            i += 1;
        }
        assert(condition@.subrange(0, condition@.len() as int) =~= condition@);
        Command { command }
    }

    /// Appends ` RETURNING field`.
    pub fn returning(self, field: &str) -> (res: Self)
        ensures
            res.command@ == self.command@ + " RETURNING "@ + field@,
    {
        let mut command = self.command;
        command.append(" RETURNING ");
        command.append(field);
        Command { command }
    }
}

} // verus!
