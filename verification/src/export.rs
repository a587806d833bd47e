//! Laying out the results of a run as a table of text: the file's name, the
//! header, one record for each row.

use vstd::prelude::*;
use vstd::string::StringExecFns;

verus! {

/// A row of results that can be written as a record of a table.
pub trait DataFrame {
    /// The names of the columns.
    fn field_names() -> &'static [&'static str];

    /// The fields of this row, in the order of the columns.
    fn to_string(&self) -> Vec<String>;
}

/// The name of the file that the table `name` is written to: the name with
/// the extension `.csv`.
pub fn csv_file_name(name: &str) -> (file: String)
    ensures
        file@ == name@ + ".csv"@,
{
    let mut file = name.to_owned();
    file.append(".csv");
    file
}

/// The header of a table: the column names as owned strings, in order.
pub fn header(names: &[&str]) -> (out: Vec<String>)
    ensures
        out@.len() == names@.len(),
        forall|i: int| 0 <= i < out@.len() ==> (#[trigger] out@[i])@ == names@[i]@,
{
    let mut out: Vec<String> = Vec::new();
    let mut i: usize = 0;
    while i < names.len()
        invariant
            i <= names@.len(),
            out@.len() == i,
            forall|j: int| 0 <= j < out@.len() ==> (#[trigger] out@[j])@ == names@[j]@,
        decreases names@.len() - i,
    {
        out.push(names[i].to_owned());
        i += 1;
    }
    out
}

/// A table: the header made of `names`, then `rows`, in order.
pub fn table(names: &[&str], rows: Vec<Vec<String>>) -> (out: Vec<Vec<String>>)
    ensures
        out@.len() == rows@.len() + 1,
        out@[0]@.len() == names@.len(),
        forall|i: int| 0 <= i < names@.len() ==> (#[trigger] out@[0]@[i])@ == names@[i]@,
        forall|i: int| 0 <= i < rows@.len() ==> #[trigger] out@[i + 1] == rows@[i],
{
    let mut out: Vec<Vec<String>> = Vec::new();
    out.push(header(names));
    let ghost all = rows@;
    for row in it: rows
        invariant
            it.seq() == all,
            out@.len() == it.index() + 1,
            out@[0]@.len() == names@.len(),
            forall|i: int| 0 <= i < names@.len() ==> (#[trigger] out@[0]@[i])@ == names@[i]@,
            forall|i: int| 0 <= i < it.index() ==> #[trigger] out@[i + 1] == all[i],
    {
        out.push(row);
    }
    out
}

/// The table of `rows`: the header made of what `field_names` returns,
/// then for each row what its `to_string` returns, in order.
pub fn records<A: DataFrame>(rows: &[A]) -> (out: Vec<Vec<String>>)
    ensures
        out@.len() == rows@.len() + 1,
        exists|names: &'static [&'static str]|
            {
                &&& #[trigger] call_ensures(A::field_names, (), names)
                &&& out@[0]@.len() == names@.len()
                &&& forall|i: int| 0 <= i < names@.len() ==> (#[trigger] out@[0]@[i])@ == names@[i]@
            },
        forall|i: int|
            0 <= i < rows@.len() ==> call_ensures(A::to_string, (&rows@[i],), #[trigger] out@[i + 1]),
{
    let mut fields: Vec<Vec<String>> = Vec::new();
    let mut i: usize = 0;
    while i < rows.len()
        invariant
            i <= rows@.len(),
            fields@.len() == i,
            forall|j: int|
                0 <= j < i ==> call_ensures(A::to_string, (&rows@[j],), #[trigger] fields@[j]),
        decreases rows@.len() - i,
    {
        fields.push(rows[i].to_string());
        i += 1;
    }
    table(A::field_names(), fields)
}

} // verus!
