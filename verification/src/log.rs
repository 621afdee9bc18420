//! A table of logged values: columns that grow by one value per log call,
//! and attributes that hold one value each.

use vstd::prelude::*;
use vstd::string::StringExecFns;
use crate::text::{in_text_order, join, joined, sort_texts, texts_of};

verus! {

/// The logged data of one solver run.
///
/// `seq_data` holds the columns in the order in which they were first logged
/// to, `attrs` the attributes in the order in which they were first set, and
/// `log_path` the directory that log files go to. No key occurs twice among
/// the columns, and none twice among the attributes.
pub struct TabledData {
    pub seq_data: Vec<(String, Vec<String>)>,
    pub attrs: Vec<(String, String)>,
    pub log_path: String,
}

/// The mathematical content of a [`TabledData`].
pub ghost struct TableView {
    pub columns: Seq<(Seq<char>, Seq<Seq<char>>)>,
    pub attrs: Seq<(Seq<char>, Seq<char>)>,
    pub log_path: Seq<char>,
}

/// The keys of `entries`, in order.
pub open spec fn keys_of<V>(entries: Seq<(Seq<char>, V)>) -> Seq<Seq<char>> {
    entries.map_values(|e: (Seq<char>, V)| e.0)
}

/// The columns after `value` has been logged under `key`: appended to the
/// column of that key, or alone in a new last column.
pub open spec fn logged(
    columns: Seq<(Seq<char>, Seq<Seq<char>>)>,
    key: Seq<char>,
    value: Seq<char>,
) -> Seq<(Seq<char>, Seq<Seq<char>>)> {
    match keys_of(columns).index_of_first(key) {
        Some(i) => columns.update(i, (key, columns[i].1.push(value))),
        None => columns.push((key, seq![value])),
    }
}

/// The attributes after `key` has been set to `value`: replaced where the
/// key was set before, added last otherwise.
pub open spec fn with_attr(attrs: Seq<(Seq<char>, Seq<char>)>, key: Seq<char>, value: Seq<char>)
    -> Seq<(Seq<char>, Seq<char>)> {
    match keys_of(attrs).index_of_first(key) {
        Some(i) => attrs.update(i, (key, value)),
        None => attrs.push((key, value)),
    }
}

impl TableView {
    /// No key occurs twice among the columns, nor among the attributes.
    pub open spec fn wf(self) -> bool {
        keys_of(self.columns).no_duplicates() && keys_of(self.attrs).no_duplicates()
    }

    /// All columns hold the same number of values.
    pub open spec fn is_rectangular(self) -> bool {
        forall|i: int|
            0 <= i < self.columns.len() ==> (#[trigger] self.columns[i]).1.len()
                == self.columns[0].1.len()
    }

    /// The number of rows of the table: that of the values of each column,
    /// and one where there is no column.
    pub open spec fn num_rows(self) -> nat {
        if self.columns.len() == 0 {
            1
        } else {
            self.columns[0].1.len()
        }
    }

    /// The value of the attribute `key`, if it is set.
    pub open spec fn attr(self, key: Seq<char>) -> Option<Seq<char>> {
        match keys_of(self.attrs).index_of_first(key) {
            Some(i) => Some(self.attrs[i].1),
            None => None,
        }
    }

    /// The value of the attribute `key`, or `fallback` if it is not set.
    pub open spec fn attr_or(self, key: Seq<char>, fallback: Seq<char>) -> Seq<char> {
        match self.attr(key) {
            Some(value) => value,
            None => fallback,
        }
    }

    /// The values of the column `key`, if there is one.
    pub open spec fn column(self, key: Seq<char>) -> Option<Seq<Seq<char>>> {
        match keys_of(self.columns).index_of_first(key) {
            Some(i) => Some(self.columns[i].1),
            None => None,
        }
    }

    /// What row `row` shows under the name `name`: the attribute of that
    /// name if there is one, else the value that the column of that name
    /// holds at `row`.
    pub open spec fn cell(self, name: Seq<char>, row: int) -> Seq<char> {
        match self.attr(name) {
            Some(value) => value,
            None => match self.column(name) {
                Some(values) => values[row],
                None => Seq::empty(),
            },
        }
    }

    /// The keys of the columns, then those of the attributes.
    pub open spec fn all_keys(self) -> Seq<Seq<char>> {
        keys_of(self.columns) + keys_of(self.attrs)
    }

    /// `names` holds all keys of the table in the order of the dictionary.
    pub open spec fn is_header(self, names: Seq<Seq<char>>) -> bool {
        in_text_order(names) && names.to_multiset() == self.all_keys().to_multiset()
    }

    /// The cells of row `row` under the names `names`.
    pub open spec fn cells(self, names: Seq<Seq<char>>, row: int) -> Seq<Seq<char>> {
        names.map_values(|name: Seq<char>| self.cell(name, row))
    }

    /// The lines of the table under the header `names`: the names, then one
    /// line for each row, all with commas between the cells.
    pub open spec fn rendering(self, names: Seq<Seq<char>>) -> Seq<Seq<char>> {
        seq![joined(names, ","@)] + Seq::new(
            self.num_rows(),
            |row: int| joined(self.cells(names, row), ","@),
        )
    }

    /// The name of the log file with the identifier `id`: the directory, the
    /// identifier, the attributes `algorithm`, `instance` and `function`.
    pub open spec fn file_name(self, id: Seq<char>) -> Seq<char> {
        self.log_path + "/"@ + id + "-"@ + self.attr_or("algorithm"@, "unknown"@) + "-"@
            + self.attr_or("instance"@, "unknown"@) + ":"@ + self.attr_or(
            "function"@,
            "function"@,
        ) + ".csv"@
    }

    /// The table without its columns and attributes.
    pub open spec fn cleared(self) -> TableView {
        TableView { columns: Seq::empty(), attrs: Seq::empty(), log_path: self.log_path }
    }
}

impl View for TabledData {
    type V = TableView;

    open spec fn view(&self) -> TableView {
        TableView {
            columns: self.seq_data@.map_values(
                |e: (String, Vec<String>)| (e.0@, e.1@.map_values(|v: String| v@)),
            ),
            attrs: self.attrs@.map_values(|e: (String, String)| (e.0@, e.1@)),
            log_path: self.log_path@,
        }
    }
}

impl Default for TabledData {
    /// An empty table whose log files go to the current directory.
    fn default() -> (data: Self)
        ensures
            data@.columns.len() == 0,
            data@.attrs.len() == 0,
            data@.log_path == "."@,
            data@.wf(),
    {
        TabledData { seq_data: Vec::new(), attrs: Vec::new(), log_path: ".".to_owned() }
    }
}

impl TabledData {
    /// Finds the column that is keyed by `key`.
    fn find_column(&self, key: &String) -> (at: Option<usize>)
        ensures
            match at {
                Some(i) => i < self.seq_data@.len() && keys_of(self@.columns).index_of_first(key@)
                    == Some(i as int),
                None => keys_of(self@.columns).index_of_first(key@) is None,
            },
    {
        let ghost keys = keys_of(self@.columns);
        let mut i: usize = 0;
        while i < self.seq_data.len()
            invariant
                i <= self.seq_data.len(),
                keys == keys_of(self@.columns),
                forall|k: int| 0 <= k < i ==> keys[k] != key@,
            decreases self.seq_data.len() - i,
        {
            if self.seq_data[i].0 == *key {
                proof {
                    assert(keys[i as int] == key@);
                    keys.index_of_first_ensures(key@);
                }
                return Some(i);
            }
            i += 1;
        }
        proof {
            keys.index_of_first_ensures(key@);
        }
        None
    }

    /// Finds the attribute that is keyed by `key`.
    fn find_attr(&self, key: &String) -> (at: Option<usize>)
        ensures
            match at {
                Some(i) => i < self.attrs@.len() && keys_of(self@.attrs).index_of_first(key@)
                    == Some(i as int),
                None => keys_of(self@.attrs).index_of_first(key@) is None,
            },
    {
        let ghost keys = keys_of(self@.attrs);
        let mut i: usize = 0;
        while i < self.attrs.len()
            invariant
                i <= self.attrs.len(),
                keys == keys_of(self@.attrs),
                forall|k: int| 0 <= k < i ==> keys[k] != key@,
            decreases self.attrs.len() - i,
        {
            if self.attrs[i].0 == *key {
                proof {
                    assert(keys[i as int] == key@);
                    keys.index_of_first_ensures(key@);
                }
                return Some(i);
            }
            i += 1;
        }
        proof {
            keys.index_of_first_ensures(key@);
        }
        None
    }
}

/// Setting or adding a key keeps the keys free of duplicates.
proof fn lemma_keys_stay_distinct<V>(entries: Seq<(Seq<char>, V)>, key: Seq<char>, value: V)
    requires
        keys_of(entries).no_duplicates(),
    ensures
        match keys_of(entries).index_of_first(key) {
            Some(i) => keys_of(entries.update(i, (key, value))) == keys_of(entries),
            None => keys_of(entries.push((key, value))).no_duplicates(),
        },
{
    let keys = keys_of(entries);
    keys.index_of_first_ensures(key);
    match keys.index_of_first(key) {
        Some(i) => {
            assert(keys_of(entries.update(i, (key, value))) =~= keys);
        },
        None => {
            let grown = keys_of(entries.push((key, value)));
            assert(grown =~= keys.push(key));
            assert forall|a: int, b: int|
                0 <= a < grown.len() && 0 <= b < grown.len() && a != b implies grown[a]
                != grown[b] by {
                if a < keys.len() && b < keys.len() {
                    assert(keys[a] != keys[b]);
                } else if a < keys.len() {
                    assert(keys.contains(keys[a]));
                }
            }
        },
    }
}

/// Appends `value` to the column `key` of `data`; a key that is logged for
/// the first time gets a new column.
pub fn log(data: &mut TabledData, key: &str, value: String)
    requires
        old(data)@.wf(),
    ensures
        final(data)@.columns == logged(old(data)@.columns, key@, value@),
        final(data)@.attrs == old(data)@.attrs,
        final(data)@.log_path == old(data)@.log_path,
        final(data)@.wf(),
{
    let key = key.to_owned();
    let ghost before = data@;
    match data.find_column(&key) {
        Some(i) => {
            data.seq_data[i].1.push(value);
            proof {
                let column = before.columns[i as int].1.push(value@);
                keys_of(before.columns).index_of_first_ensures(key@);
                assert(data.seq_data@[i as int].1@.map_values(|v: String| v@) =~= column);
                assert(data@.columns =~= before.columns.update(i as int, (key@, column)));
                lemma_keys_stay_distinct(before.columns, key@, column);
            }
        },
        None => {
            let mut column: Vec<String> = Vec::new();
            column.push(value);
            data.seq_data.push((key, column));
            proof {
                assert(column@.map_values(|v: String| v@) =~= seq![value@]);
                lemma_keys_stay_distinct(before.columns, key@, seq![value@]);
            }
        },
    }
}

/// Sets the attribute `key` of `data` to `value`.
pub fn set_attr(data: &mut TabledData, key: &str, value: String)
    requires
        old(data)@.wf(),
    ensures
        final(data)@.attrs == with_attr(old(data)@.attrs, key@, value@),
        final(data)@.columns == old(data)@.columns,
        final(data)@.log_path == old(data)@.log_path,
        final(data)@.wf(),
{
    let key = key.to_owned();
    let ghost before = data@;
    match data.find_attr(&key) {
        Some(i) => {
            data.attrs[i].1 = value;
            proof {
                keys_of(before.attrs).index_of_first_ensures(key@);
                lemma_keys_stay_distinct(before.attrs, key@, value@);
            }
        },
        None => {
            data.attrs.push((key, value));
            proof {
                lemma_keys_stay_distinct(before.attrs, key@, value@);
            }
        },
    }
}

/// Sets the directory that the log files of `data` go to.
pub fn set_log_dir(data: &mut TabledData, dir: String)
    ensures
        final(data)@.log_path == dir@,
        final(data)@.columns == old(data)@.columns,
        final(data)@.attrs == old(data)@.attrs,
{
    data.log_path = dir;
}

impl TabledData {
    /// Returns the value of the attribute `key`, or `fallback` if it is not
    /// set.
    pub fn attr_or(&self, key: &str, fallback: &str) -> (value: String)
        ensures
            value@ == self@.attr_or(key@, fallback@),
    {
        let key = key.to_owned();
        match self.find_attr(&key) {
            Some(i) => self.attrs[i].1.clone(),
            None => fallback.to_owned(),
        }
    }

    /// Returns what row `row` shows under the name `name`.
    fn cell(&self, name: &String, row: usize) -> (value: String)
        requires
            self@.is_rectangular(),
            row < self@.num_rows(),
        ensures
            value@ == self@.cell(name@, row as int),
    {
        match self.find_attr(name) {
            Some(i) => self.attrs[i].1.clone(),
            None => match self.find_column(name) {
                Some(i) => {
                    assert(self@.columns[i as int].1 == self.seq_data@[i as int].1@.map_values(
                        |v: String| v@,
                    ));
                    self.seq_data[i].1[row].clone()
                },
                None => String::new(),
            },
        }
    }

    /// Returns the name of the log file with the identifier `id`.
    pub fn file_name(&self, id: &str) -> (name: String)
        ensures
            name@ == self@.file_name(id@),
    {
        let mut name = self.log_path.clone();
        name.append("/");
        name.append(id);
        name.append("-");
        name.append(self.attr_or("algorithm", "unknown").as_str());
        name.append("-");
        name.append(self.attr_or("instance", "unknown").as_str());
        name.append(":");
        name.append(self.attr_or("function", "function").as_str());
        name.append(".csv");
        name
    }

    /// Returns the lines of the table: a header with all keys in the order
    /// of the dictionary, then one line for each row.
    pub fn render(&self) -> (lines: Vec<String>)
        requires
            self@.is_rectangular(),
        ensures
            exists|names: Seq<Seq<char>>|
                self@.is_header(names) && texts_of(lines@) == self@.rendering(names),
    {
        let ghost table = self@;
        let mut keys: Vec<String> = Vec::new();
        let mut i: usize = 0;
        while i < self.seq_data.len()
            invariant
                i <= self.seq_data@.len(),
                table == self@,
                texts_of(keys@) == keys_of(table.columns).take(i as int),
            decreases self.seq_data@.len() - i,
        {
            keys.push(self.seq_data[i].0.clone());
            assert(keys_of(table.columns).take(i + 1) =~= keys_of(table.columns).take(
                i as int,
            ).push(table.columns[i as int].0));
            i += 1;
        }
        let mut j: usize = 0;
        while j < self.attrs.len()
            invariant
                j <= self.attrs@.len(),
                table == self@,
                texts_of(keys@) == keys_of(table.columns) + keys_of(table.attrs).take(j as int),
            decreases self.attrs@.len() - j,
        {
            let ghost before = texts_of(keys@);
            keys.push(self.attrs[j].0.clone());
            assert(keys_of(table.attrs).take(j + 1) =~= keys_of(table.attrs).take(j as int).push(
                table.attrs[j as int].0,
            ));
            assert(keys_of(table.columns) + keys_of(table.attrs).take(j + 1) =~= before.push(
                table.attrs[j as int].0,
            ));
            j += 1;
        }
        assert(keys_of(table.attrs).take(j as int) =~= keys_of(table.attrs));
        let cols = sort_texts(keys);
        let ghost names = texts_of(cols@);
        let n: usize = if self.seq_data.len() == 0 {
            1
        } else {
            self.seq_data[0].1.len()
        };
        let mut lines: Vec<String> = Vec::new();
        lines.push(join(&cols, ","));
        let mut row: usize = 0;
        while row < n
            invariant
                row <= n,
                n == table.num_rows(),
                table == self@,
                table.is_rectangular(),
                names == texts_of(cols@),
                lines@.len() == row + 1,
                texts_of(lines@)[0] == joined(names, ","@),
                forall|r: int|
                    0 <= r < row ==> #[trigger] texts_of(lines@)[r + 1] == joined(
                        table.cells(names, r),
                        ","@,
                    ),
            decreases n - row,
        {
            let mut values: Vec<String> = Vec::new();
            let mut k: usize = 0;
            while k < cols.len()
                invariant
                    k <= cols@.len(),
                    row < n,
                    n == table.num_rows(),
                    table == self@,
                    table.is_rectangular(),
                    names == texts_of(cols@),
                    texts_of(values@) == table.cells(names, row as int).take(k as int),
                decreases cols@.len() - k,
            {
                let value = self.cell(&cols[k], row);
                values.push(value);
                assert(table.cells(names, row as int).take(k + 1) =~= table.cells(
                    names,
                    row as int,
                ).take(k as int).push(table.cell(names[k as int], row as int)));
                k += 1;
            }
            assert(table.cells(names, row as int).take(k as int) =~= table.cells(
                names,
                row as int,
            ));
            let ghost shown = texts_of(lines@);
            let line = join(&values, ",");
            lines.push(line);
            assert(texts_of(lines@) =~= shown.push(line@));
            assert forall|r: int| 0 <= r < row + 1 implies #[trigger] texts_of(lines@)[r + 1]
                == joined(table.cells(names, r), ","@) by {}
            row += 1;
        }
        assert forall|k: int| 0 <= k < texts_of(lines@).len() implies texts_of(lines@)[k]
            == table.rendering(names)[k] by {
            if k > 0 {
                let r = k - 1;
                assert(texts_of(lines@)[r + 1] == joined(table.cells(names, r), ","@));
            }
        }
        lines
    }
}

/// Closes the log of one run: sets the attribute `id`, returns the name of
/// the log file and its lines, and empties the table for the next run.
pub fn write(data: &mut TabledData, id: String) -> (file: (String, Vec<String>))
    requires
        old(data)@.wf(),
        old(data)@.is_rectangular(),
    ensures
        ({
            let table = TableView {
                attrs: with_attr(old(data)@.attrs, "id"@, id@),
                ..old(data)@
            };
            &&& file.0@ == table.file_name(id@)
            &&& exists|names: Seq<Seq<char>>|
                table.is_header(names) && texts_of(file.1@) == table.rendering(names)
        }),
        final(data)@ == old(data)@.cleared(),
{
    set_attr(data, "id", id.clone());
    let name = data.file_name(id.as_str());
    let lines = data.render();
    data.seq_data = Vec::new();
    data.attrs = Vec::new();
    assert(data@.columns =~= Seq::empty());
    assert(data@.attrs =~= Seq::empty());
    (name, lines)
}

} // verus!
