//! Tables of comma-separated values.
//!
//! The parse tree of a table lists its records, each of which lists its fields.
//! [`parse_csv_to_map`] numbers the records from one and maps each number to the
//! fields of its record.

use std::collections::HashMap;
use vstd::prelude::*;
use crate::tree::{lemma_trees, trees, Node, Tree};

verus! {

/// The grammar rules that label the nodes of a table's parse tree.
#[derive(Debug, Clone, Copy, PartialEq, Eq)]
pub enum Rule {
    File,
    Record,
    Field,
    Eoi,
}

/// Why a tree could not be mapped.
#[derive(Debug, Clone, Copy, PartialEq, Eq)]
pub enum CsvError {
    /// There are more records than numbers to count them with.
    TooManyRecords,
    /// A node that is neither a record nor the end of the input.
    UnexpectedRule { rule: Rule },
}

/// The state of a walk over the records of a table.
pub ghost struct Table {
    /// How many records have been seen.
    pub records: int,
    /// Fields that the next record takes in front of its own.
    pub pending: Seq<Seq<char>>,
    /// The fields of each record that has any, by the number of the record.
    pub rows: Map<u64, Seq<Seq<char>>>,
}

/// The fields that a map of rows holds, by the number of the record.
pub open spec fn rows_of(map: HashMap<u64, Vec<String>>) -> Map<u64, Seq<Seq<char>>> {
    map@.map_values(|fields: Vec<String>| fields.deep_view())
}

/// The texts of a sequence of nodes, one for one.
pub open spec fn texts(nodes: Seq<Tree<Rule>>) -> Seq<Seq<char>> {
    nodes.map_values(|node: Tree<Rule>| node.text)
}

/// The table after one more top-level node. A record takes the next number and, where
/// it has fields, maps it to the pending fields followed by its own; the end of the
/// input changes nothing; any other node stops the walk.
pub open spec fn after_node(table: Table, node: Tree<Rule>) -> Result<Table, CsvError> {
    match node.rule {
        Rule::Record => if table.records >= u64::MAX {
            Err(CsvError::TooManyRecords)
        } else {
            let number = table.records + 1;
            let fields = table.pending + texts(node.children);
            Ok(
                Table {
                    records: number,
                    pending: Seq::empty(),
                    rows: if node.children.len() > 0 {
                        table.rows.insert(number as u64, fields)
                    } else {
                        table.rows
                    },
                },
            )
        },
        Rule::Eoi => Ok(table),
        _ => Err(CsvError::UnexpectedRule { rule: node.rule }),
    }
}

/// The table after a sequence of top-level nodes, or the failure of the first node
/// that stops the walk.
pub open spec fn after_nodes(table: Table, nodes: Seq<Tree<Rule>>) -> Result<Table, CsvError>
    decreases nodes.len(),
{
    if nodes.len() == 0 {
        Ok(table)
    } else {
        match after_nodes(table, nodes.drop_last()) {
            Err(failure) => Err(failure),
            Ok(before) => after_node(before, nodes.last()),
        }
    }
}

/// A failure among the first nodes is the failure of the whole walk.
pub proof fn lemma_walk_prefix_fails(table: Table, nodes: Seq<Tree<Rule>>, k: int)
    requires
        0 <= k <= nodes.len(),
        after_nodes(table, nodes.take(k)) is Err,
    ensures
        after_nodes(table, nodes) == after_nodes(table, nodes.take(k)),
    decreases nodes.len(),
{
    if k == nodes.len() {
        assert(nodes.take(k) == nodes);
    } else {
        assert(nodes.drop_last().take(k) == nodes.take(k));
        lemma_walk_prefix_fails(table, nodes.drop_last(), k);
    }
}

/// Appends the texts of the fields of a record to `fields`.
fn push_fields<'a>(record: &Node<'a, Rule>, fields: &mut Vec<String>)
    ensures
        final(fields).deep_view() == old(fields).deep_view() + texts(record@.children),
{
    let ghost given = fields.deep_view();
    let ghost all = texts(record@.children);
    let mut i: usize = 0;
    proof {
        lemma_trees(record.children@);
        assert(all.take(0) == Seq::<Seq<char>>::empty());
        assert(given + all.take(0) == given);
    }
    while i < record.children.len()
        invariant
            i <= record.children.len(),
            all == texts(record@.children),
            record@.children == trees(record.children@),
            all.len() == record.children.len(),
            fields.deep_view() == given + all.take(i as int),
        decreases record.children.len() - i,
    {
        let ghost before = fields.deep_view();
        let text = record.children[i].text.to_owned();
        proof {
            lemma_trees(record.children@);
            assert(all[i as int] == record@.children[i as int].text);
            assert(all.take(i + 1) == all.take(i as int).push(text@));
        }
        fields.push(text);
        proof {
            assert(fields.deep_view() == before.push(text@));
            assert(given + all.take(i as int).push(text@) == (given + all.take(i as int)).push(
                text@,
            ));
        }
        i += 1;
    }
    proof {
        assert(all.take(i as int) == all);
    }
}

/// Maps the number of each record of a table to the fields of that record.
///
/// Records are numbered upwards from `record_count`. The fields in `field_value` go
/// in front of those of the first record. A record without fields takes a number and
/// adds no row. Rows are added to `output`; a row that is there under the number of a
/// record is replaced.
pub fn parse_csv_to_map<'a>(
    file: &Node<'a, Rule>,
    record_count: u64,
    field_value: Vec<String>,
    output: HashMap<u64, Vec<String>>,
) -> (result: Result<HashMap<u64, Vec<String>>, CsvError>)
    ensures
        match after_nodes(
            Table {
                records: record_count as int,
                pending: field_value.deep_view(),
                rows: rows_of(output),
            },
            file@.children,
        ) {
            Ok(table) => result matches Ok(map) && rows_of(map) == table.rows,
            Err(failure) => result == Err::<HashMap<u64, Vec<String>>, CsvError>(failure),
        },
{
    let ghost start = Table {
        records: record_count as int,
        pending: field_value.deep_view(),
        rows: rows_of(output),
    };
    let ghost nodes = file@.children;
    let mut count = record_count;
    let mut fields = field_value;
    let mut rows = output;
    let mut i: usize = 0;
    proof {
        assert(nodes.take(0) == Seq::<Tree<Rule>>::empty());
    }
    while i < file.children.len()
        invariant
            i <= file.children.len(),
            nodes == file@.children,
            nodes == trees(file.children@),
            start == (Table {
                records: record_count as int,
                pending: field_value.deep_view(),
                rows: rows_of(output),
            }),
            after_nodes(start, nodes.take(i as int)) == Ok::<Table, CsvError>(
                Table { records: count as int, pending: fields.deep_view(), rows: rows_of(rows) },
            ),
        decreases file.children.len() - i,
    {
        let record = &file.children[i];
        proof {
            lemma_trees(file.children@);
            assert(nodes.take(i + 1).drop_last() == nodes.take(i as int));
            assert(nodes.take(i + 1).last() == nodes[i as int]);
            assert(nodes[i as int] == record@);
            lemma_trees(record.children@);
        }
        match record.rule {
            Rule::Record => {
                if count == u64::MAX {
                    proof {
                        lemma_walk_prefix_fails(start, nodes, i + 1);
                    }
                    return Err(CsvError::TooManyRecords);
                }
                count = count + 1;
                push_fields(record, &mut fields);
                if record.children.len() > 0 {
                    let ghost before = rows_of(rows);
                    let ghost row = fields.deep_view();
                    rows.insert(count, fields);
                    proof {
                        assert(rows_of(rows) =~= before.insert(count, row));
                    }
                    fields = Vec::new();
                } else {
                    fields.clear();
                }
                proof {
                    assert(fields.deep_view() =~= Seq::<Seq<char>>::empty());
                }
            },
            Rule::Eoi => {},
            _ => {
                proof {
                    lemma_walk_prefix_fails(start, nodes, i + 1);
                }
                return Err(CsvError::UnexpectedRule { rule: record.rule });
            },
        }
        i += 1;
    }
    proof {
        lemma_trees(file.children@);
        assert(nodes.take(i as int) == nodes);
    }
    Ok(rows)
}

} // verus!
