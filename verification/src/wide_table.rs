//! The SQL text of the wide-table record-parsing benchmark: the table with
//! `n` columns whose types cycle INTEGER, REAL, TEXT, BLOB, the statements
//! that fill it, and the queries that select a share of its columns.
use vstd::prelude::*;

verus! {

/// The decimal digit `d` (below 10).
pub open spec fn digit(d: nat) -> Seq<char> {
    if d == 0 {
        "0"@
    } else if d == 1 {
        "1"@
    } else if d == 2 {
        "2"@
    } else if d == 3 {
        "3"@
    } else if d == 4 {
        "4"@
    } else if d == 5 {
        "5"@
    } else if d == 6 {
        "6"@
    } else if d == 7 {
        "7"@
    } else if d == 8 {
        "8"@
    } else {
        "9"@
    }
}

/// `n` written in decimal, without leading zeros.
pub open spec fn decimal(n: nat) -> Seq<char>
    decreases n,
{
    if n < 10 {
        digit(n)
    } else {
        decimal(n / 10) + digit(n % 10)
    }
}

/// `items` joined by `sep`.
pub open spec fn join(items: Seq<Seq<char>>, sep: Seq<char>) -> Seq<char>
    decreases items.len(),
{
    if items.len() == 0 {
        seq![]
    } else if items.len() == 1 {
        items[0]
    } else {
        join(items.drop_last(), sep) + sep + items.last()
    }
}

/// The name of column `i`: `col_i`.
pub open spec fn column_name(i: nat) -> Seq<char> {
    "col_"@ + decimal(i)
}

/// The type of column `i`, by `i % 4`: INTEGER, REAL, TEXT, BLOB.
pub open spec fn column_type(i: nat) -> Seq<char> {
    if i % 4 == 0 {
        "INTEGER"@
    } else if i % 4 == 1 {
        "REAL"@
    } else if i % 4 == 2 {
        "TEXT"@
    } else {
        "BLOB"@
    }
}

/// The names of the first `n` columns.
pub open spec fn column_names(n: nat) -> Seq<Seq<char>> {
    Seq::new(n, |i: int| column_name(i as nat))
}

/// The `CREATE TABLE` statement of the table with `n` columns.
pub open spec fn create_table_sql(n: nat) -> Seq<char> {
    "CREATE TABLE wide_table ("@ + join(
        Seq::new(n, |i: int| column_name(i as nat) + " "@ + column_type(i as nat)),
        ", "@,
    ) + ")"@
}

/// The `INSERT` statement that fills all `n` columns from parameters.
pub open spec fn insert_sql(n: nat) -> Seq<char> {
    "INSERT INTO wide_table ("@ + join(column_names(n), ", "@) + ") VALUES ("@ + join(
        Seq::new(n, |i: int| "?"@),
        ", "@,
    ) + ")"@
}

/// The query that reads the first `k` columns of the rows with `col_0 < 1000`.
pub open spec fn projection_query(k: nat) -> Seq<char> {
    "SELECT "@ + join(column_names(k), ", "@) + " FROM wide_table WHERE col_0 < 1000"@
}

/// How many columns a query selects that reads `pct` percent of `n`
/// columns: at least one.
pub open spec fn selected_columns(n: nat, pct: nat) -> nat {
    let k = n * pct / 100;
    if k < 1 {
        1
    } else {
        k
    }
}

/// The number that a string of decimal digits stands for.
pub open spec fn numeral_value(s: Seq<char>) -> int
    decreases s.len(),
{
    if s.len() == 0 {
        0
    } else {
        numeral_value(s.drop_last()) * 10 + (s.last() as int - 48)
    }
}

proof fn lemma_digit(d: nat)
    requires
        d < 10,
    ensures
        digit(d).len() == 1,
        digit(d)[0] as int == 48 + d,
{
    reveal_strlit("0");
    reveal_strlit("1");
    reveal_strlit("2");
    reveal_strlit("3");
    reveal_strlit("4");
    reveal_strlit("5");
    reveal_strlit("6");
    reveal_strlit("7");
    reveal_strlit("8");
    reveal_strlit("9");
}

/// `decimal(n)` is the base-10 numeral of `n`: a non-empty string of the
/// ASCII digits `0` to `9` that stands for `n`, without a leading zero
/// (unless `n` is zero itself).
pub proof fn lemma_decimal_is_base_ten_numeral(n: nat)
    ensures
        decimal(n).len() >= 1,
        forall|i: int| 0 <= i < decimal(n).len() ==> 48 <= #[trigger] (decimal(n)[i] as int) <= 57,
        numeral_value(decimal(n)) == n,
        decimal(n)[0] as int == 48 ==> n == 0,
        n < 10 <==> decimal(n).len() == 1,
    decreases n,
{
    if n < 10 {
        lemma_digit(n);
        assert(decimal(n).drop_last() =~= Seq::<char>::empty());
        assert(numeral_value(Seq::<char>::empty()) == 0);
    } else {
        lemma_decimal_is_base_ten_numeral(n / 10);
        lemma_digit(n % 10);
        let p = decimal(n / 10);
        let d = digit(n % 10);
        assert(decimal(n) == p + d);
        assert((p + d).drop_last() =~= p);
        assert((p + d).last() == d[0]);
        assert((p + d)[0] == p[0]);
        vstd::arithmetic::div_mod::lemma_fundamental_div_mod(n as int, 10);
        assert(numeral_value(p + d) == numeral_value(p) * 10 + (d[0] as int - 48));
        assert forall|i: int| 0 <= i < decimal(n).len() implies 48 <= #[trigger] (decimal(n)[i] as int)
            <= 57 by {
            if i < p.len() {
                assert((p + d)[i] == p[i]);
            }
        }
    }
}

/// Two numbers with the same decimal numeral are equal.
pub proof fn lemma_decimal_injective(i: nat, j: nat)
    requires
        decimal(i) == decimal(j),
    ensures
        i == j,
{
    lemma_decimal_is_base_ten_numeral(i);
    lemma_decimal_is_base_ten_numeral(j);
}

/// The column names `col_0`, `col_1`, ... are pairwise distinct.
pub proof fn lemma_column_names_distinct(i: nat, j: nat)
    requires
        i != j,
    ensures
        column_name(i) != column_name(j),
{
    if column_name(i) == column_name(j) {
        let pre = "col_"@;
        assert(column_name(i).skip(pre.len() as int) =~= decimal(i));
        assert(column_name(j).skip(pre.len() as int) =~= decimal(j));
        lemma_decimal_injective(i, j);
    }
}

/// A query that reads `pct` percent of `n` columns selects `n * pct / 100`
/// of them, rounded down, but at least one: `k` with
/// `k * 100 <= n * pct < (k + 1) * 100`, or 1 when `n * pct < 100`.
pub proof fn lemma_selected_columns_share(n: nat, pct: nat)
    ensures
        n * pct < 100 ==> selected_columns(n, pct) == 1,
        n * pct >= 100 ==> selected_columns(n, pct) * 100 <= n * pct < selected_columns(n, pct) * 100
            + 100,
{
    let m = n * pct;
    vstd::arithmetic::div_mod::lemma_fundamental_div_mod(m as int, 100);
    assert(0 <= m % 100 < 100);
}

/// Column types cycle every four columns, starting with INTEGER, REAL,
/// TEXT, BLOB: column `4 * q + r` has the type of column `r`.
pub proof fn lemma_column_types_cycle(q: nat, r: nat)
    requires
        r < 4,
    ensures
        column_type(4 * q + r) == column_type(r),
        column_type(0) == "INTEGER"@,
        column_type(1) == "REAL"@,
        column_type(2) == "TEXT"@,
        column_type(3) == "BLOB"@,
{
    assert((4 * q + r) % 4 == r) by (nonlinear_arith)
        requires
            r < 4,
    ;
}

/// Appends `n` in decimal.
fn push_decimal(s: &mut String, n: usize)
    ensures
        final(s)@ == old(s)@ + decimal(n as nat),
    decreases n,
{
    if n >= 10 {
        push_decimal(s, n / 10);
    }
    let d = n % 10;
    let text = if d == 0 {
        "0"
    } else if d == 1 {
        "1"
    } else if d == 2 {
        "2"
    } else if d == 3 {
        "3"
    } else if d == 4 {
        "4"
    } else if d == 5 {
        "5"
    } else if d == 6 {
        "6"
    } else if d == 7 {
        "7"
    } else if d == 8 {
        "8"
    } else {
        "9"
    };
    s.append(text);
    assert(s@ =~= old(s)@ + decimal(n as nat));
}

/// Appends the name of column `i`.
fn push_column_name(s: &mut String, i: usize)
    ensures
        final(s)@ == old(s)@ + column_name(i as nat),
{
    s.append("col_");
    push_decimal(s, i);
    assert(s@ =~= old(s)@ + column_name(i as nat));
}

/// The name of column `i`: `col_i`.
pub fn wide_column_name(i: usize) -> (r: String)
    ensures
        r@ == column_name(i as nat),
{
    let mut s = String::new();
    push_column_name(&mut s, i);
    assert(s@ =~= column_name(i as nat));
    s
}

/// The type of column `i`.
pub fn wide_column_type(i: usize) -> (r: &'static str)
    ensures
        r@ == column_type(i as nat),
{
    if i % 4 == 0 {
        "INTEGER"
    } else if i % 4 == 1 {
        "REAL"
    } else if i % 4 == 2 {
        "TEXT"
    } else {
        "BLOB"
    }
}

proof fn lemma_join_step(items: Seq<Seq<char>>, sep: Seq<char>, i: int)
    requires
        0 <= i < items.len(),
    ensures
        join(items.take(i + 1), sep) == if i == 0 {
            items[0]
        } else {
            join(items.take(i), sep) + sep + items[i]
        },
{
    assert(items.take(i + 1).drop_last() =~= items.take(i));
    if i == 0 {
        assert(items.take(1)[0] == items[0]);
    }
}

/// The `CREATE TABLE` statement of the table with `num_columns` columns.
pub fn create_wide_table_sql(num_columns: usize) -> (r: String)
    ensures
        r@ == create_table_sql(num_columns as nat),
{
    let ghost items = Seq::new(
        num_columns as nat,
        |i: int| column_name(i as nat) + " "@ + column_type(i as nat),
    );
    let mut s = String::new();
    s.append("CREATE TABLE wide_table (");
    let ghost head = s@;
    for i in 0..num_columns
        invariant
            items.len() == num_columns,
            forall|k: int|
                0 <= k < num_columns ==> #[trigger] items[k] == column_name(k as nat) + " "@
                    + column_type(k as nat),
            s@ == head + join(items.take(i as int), ", "@),
    {
        proof {
            lemma_join_step(items, ", "@, i as int);
        }
        if i > 0 {
            s.append(", ");
        }
        push_column_name(&mut s, i);
        s.append(" ");
        s.append(wide_column_type(i));
        assert(s@ =~= head + join(items.take(i + 1), ", "@));
    }
    assert(items.take(num_columns as int) =~= items);
    s.append(")");
    s
}

/// The `INSERT` statement that fills all `num_columns` columns from parameters.
pub fn insert_wide_table_sql(num_columns: usize) -> (r: String)
    ensures
        r@ == insert_sql(num_columns as nat),
{
    let ghost names = column_names(num_columns as nat);
    let ghost marks = Seq::new(num_columns as nat, |i: int| "?"@);
    let mut s = String::new();
    s.append("INSERT INTO wide_table (");
    let ghost head = s@;
    for i in 0..num_columns
        invariant
            names == column_names(num_columns as nat),
            s@ == head + join(names.take(i as int), ", "@),
    {
        proof {
            lemma_join_step(names, ", "@, i as int);
        }
        if i > 0 {
            s.append(", ");
        }
        push_column_name(&mut s, i);
        assert(s@ =~= head + join(names.take(i + 1), ", "@));
    }
    assert(names.take(num_columns as int) =~= names);
    s.append(") VALUES (");
    let ghost middle = s@;
    for i in 0..num_columns
        invariant
            marks == Seq::new(num_columns as nat, |i: int| "?"@),
            s@ == middle + join(marks.take(i as int), ", "@),
    {
        proof {
            lemma_join_step(marks, ", "@, i as int);
        }
        if i > 0 {
            s.append(", ");
        }
        s.append("?");
        assert(s@ =~= middle + join(marks.take(i + 1), ", "@));
    }
    assert(marks.take(num_columns as int) =~= marks);
    s.append(")");
    s
}

/// How many columns a query selects that reads `pct` percent of
/// `num_columns` columns: at least one.
pub fn columns_to_select(num_columns: usize, pct: usize) -> (k: usize)
    requires
        num_columns * pct <= usize::MAX,
    ensures
        k == selected_columns(num_columns as nat, pct as nat),
{
    let k = num_columns * pct / 100;
    if k < 1 {
        1
    } else {
        k
    }
}

/// The query of the column-selectivity benchmark that reads `pct` percent
/// of the `num_columns` columns: every column (`*`) at 100 percent, else the
/// first `columns_to_select` columns by name.
pub fn selectivity_query(num_columns: usize, pct: usize) -> (r: String)
    requires
        num_columns * pct <= usize::MAX,
    ensures
        pct == 100 ==> r@ == "SELECT * FROM wide_table WHERE col_0 < 1000"@,
        pct != 100 ==> r@ == projection_query(selected_columns(num_columns as nat, pct as nat)),
{
    if pct == 100 {
        let mut s = String::new();
        s.append("SELECT * FROM wide_table WHERE col_0 < 1000");
        return s;
    }
    let k = columns_to_select(num_columns, pct);
    let ghost names = column_names(k as nat);
    let mut s = String::new();
    s.append("SELECT ");
    let ghost head = s@;
    for i in 0..k
        invariant
            names == column_names(k as nat),
            s@ == head + join(names.take(i as int), ", "@),
    {
        proof {
            lemma_join_step(names, ", "@, i as int);
        }
        if i > 0 {
            s.append(", ");
        }
        push_column_name(&mut s, i);
        assert(s@ =~= head + join(names.take(i + 1), ", "@));
    }
    assert(names.take(k as int) =~= names);
    s.append(" FROM wide_table WHERE col_0 < 1000");
    s
}

/// The aggregation query built from a template: `SELECT template`.
pub fn aggregation_query(template: &str) -> (r: String)
    ensures
        r@ == "SELECT "@ + template@,
{
    let mut s = String::new();
    s.append("SELECT ");
    s.append(template);
    s
}

/// The file name of the database with `num_columns` columns.
pub fn wide_table_file_name(num_columns: usize) -> (r: String)
    ensures
        r@ == "wide_table_"@ + decimal(num_columns as nat) + ".db"@,
{
    let mut s = String::new();
    s.append("wide_table_");
    push_decimal(&mut s, num_columns);
    s.append(".db");
    s
}

/// The INTEGER value of row `row` in column `col`: `row * 100 + col`.
pub fn integer_cell(row: usize, col: usize) -> (v: i64)
    requires
        row * 100 + col <= usize::MAX,
    ensures
        v == (row * 100 + col) as i64,
{
    (row * 100 + col) as i64
}

/// The TEXT value of row `row` in column `col`: `text_row_col`.
pub fn text_cell(row: usize, col: usize) -> (r: String)
    ensures
        r@ == "text_"@ + decimal(row as nat) + "_"@ + decimal(col as nat),
{
    let mut s = String::new();
    s.append("text_");
    push_decimal(&mut s, row);
    s.append("_");
    push_decimal(&mut s, col);
    s
}

} // verus!
