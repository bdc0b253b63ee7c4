//! The SQL that the `DB` object's statement builders produce: quoted
//! identifiers, `WHERE` clauses over a table's conditions, and the
//! `SELECT` / `INSERT` / `UPDATE` / `DELETE` texts, with the order in which
//! their `?` parameters are bound. The conditions of a table statement are
//! kept sorted by column name, one value per column, as the JSON object the
//! script passed them in is. Running the statements is the server's work.
use vstd::prelude::*;

use crate::text::{join, push_joined, lemma_str_lt_irreflexive, lemma_str_lt_total, lemma_str_lt_transitive, str_less, str_lt};

verus! {

/// `"` doubled inside the identifier.
pub open spec fn escape_quotes(s: Seq<char>) -> Seq<char>
    decreases s.len(),
{
    if s.len() == 0 {
        seq![]
    } else if s.last() == '"' {
        escape_quotes(s.drop_last()) + seq!['"', '"']
    } else {
        escape_quotes(s.drop_last()).push(s.last())
    }
}

/// An SQL identifier in double quotes.
pub open spec fn quoted(s: Seq<char>) -> Seq<char> {
    seq!['"'] + escape_quotes(s) + seq!['"']
}

/// Quote an identifier for SQL: wrap it in `"` and double any `"` inside.
pub fn quote_ident(ident: &str) -> (r: String)
    ensures
        r@ == quoted(ident@),
{
    let mut out = String::new();
    out.push('"');
    let ghost s = ident@;
    for c in it: ident.chars()
        invariant
            it.seq() == s,
            out@ == seq!['"'] + escape_quotes(s.take(it.index() as int)),
    {
        let ghost i = it.index() as int;
        assert(s.take(i + 1).drop_last() =~= s.take(i));
        assert(s.take(i + 1).last() == c);
        if c == '"' {
            out.push('"');
            out.push('"');
        } else {
            out.push(c);
        }
        assert(out@ =~= seq!['"'] + escape_quotes(s.take(i + 1)));
    }
    assert(s.take(s.len() as int) =~= s);
    out.push('"');
    out
}

/// Undo `escape_quotes`: `""` becomes `"`.
pub open spec fn unescape_quotes(s: Seq<char>) -> Seq<char>
    decreases s.len(),
{
    if s.len() == 0 {
        seq![]
    } else if s.len() >= 2 && s[0] == '"' && s[1] == '"' {
        seq!['"'] + unescape_quotes(s.subrange(2, s.len() as int))
    } else {
        seq![s[0]] + unescape_quotes(s.drop_first())
    }
}

proof fn lemma_escape_append(a: Seq<char>, c: char)
    ensures
        escape_quotes(a.push(c)) == escape_quotes(a) + escape_quotes(seq![c]),
{
    assert(a.push(c).drop_last() =~= a);
    assert(seq![c].drop_last() =~= Seq::<char>::empty());
    assert(escape_quotes(Seq::<char>::empty()) =~= Seq::<char>::empty());
    if c == '"' {
        assert(escape_quotes(seq![c]) =~= seq!['"', '"']);
    } else {
        assert(escape_quotes(seq![c]) =~= seq![c]);
        assert(escape_quotes(a.push(c)) =~= escape_quotes(a) + seq![c]);
    }
}

proof fn lemma_escape_prepend(c: char, a: Seq<char>)
    ensures
        escape_quotes(seq![c] + a) == escape_quotes(seq![c]) + escape_quotes(a),
    decreases a.len(),
{
    assert(seq![c].drop_last() =~= Seq::<char>::empty());
    assert(escape_quotes(Seq::<char>::empty()) =~= Seq::<char>::empty());
    if a.len() == 0 {
        assert(seq![c] + a =~= seq![c]);
        assert(escape_quotes(a) =~= Seq::<char>::empty());
        assert(escape_quotes(seq![c]) + escape_quotes(a) =~= escape_quotes(seq![c]));
    } else {
        let b = a.drop_last();
        lemma_escape_prepend(c, b);
        assert((seq![c] + a).drop_last() =~= seq![c] + b);
        assert((seq![c] + a).last() == a.last());
        lemma_escape_append(b, a.last());
        assert(b.push(a.last()) =~= a);
        lemma_escape_append(seq![c] + b, a.last());
        assert((seq![c] + b).push(a.last()) =~= seq![c] + a);
    }
}

/// Unquoting the text inside the quotes gives the identifier back.
pub proof fn lemma_unescape_escape(s: Seq<char>)
    ensures
        unescape_quotes(escape_quotes(s)) == s,
    decreases s.len(),
{
    if s.len() == 0 {
        assert(escape_quotes(s) =~= Seq::<char>::empty());
    } else {
        let c = s[0];
        let t = s.drop_first();
        assert(s =~= seq![c] + t);
        lemma_escape_prepend(c, t);
        lemma_unescape_escape(t);
        assert(seq![c].drop_last() =~= Seq::<char>::empty());
        assert(escape_quotes(Seq::<char>::empty()) =~= Seq::<char>::empty());
        let e = escape_quotes(s);
        if c == '"' {
            assert(escape_quotes(seq![c]) =~= seq!['"', '"']);
            assert(e.subrange(2, e.len() as int) =~= escape_quotes(t));
        } else {
            assert(escape_quotes(seq![c]) =~= seq![c]);
            assert(e.drop_first() =~= escape_quotes(t));
        }
        assert(unescape_quotes(e) =~= s);
    }
}

/// Quoting is injective: two identifiers quote alike only when they are
/// the same, so a quoted name always stands for the name it was made from.
pub proof fn lemma_quote_injective(a: Seq<char>, b: Seq<char>)
    requires
        quoted(a) == quoted(b),
    ensures
        a == b,
{
    let qa = quoted(a);
    assert(qa.subrange(1, qa.len() - 1) =~= escape_quotes(a));
    let qb = quoted(b);
    assert(qb.subrange(1, qb.len() - 1) =~= escape_quotes(b));
    lemma_unescape_escape(a);
    lemma_unescape_escape(b);
}

/// `"col" = ?` for each column.
pub open spec fn assignments(cols: Seq<Seq<char>>) -> Seq<Seq<char>> {
    cols.map_values(|c: Seq<char>| quoted(c) + " = ?"@)
}

/// `?` once per column.
pub open spec fn placeholders(n: nat) -> Seq<Seq<char>> {
    Seq::new(n, |i: int| "?"@)
}

/// ` WHERE "a" = ? AND "b" = ?`, or nothing when there are no columns.
pub open spec fn where_sql(cols: Seq<Seq<char>>) -> Seq<char> {
    if cols.len() == 0 {
        seq![]
    } else {
        " WHERE "@ + join(assignments(cols), " AND "@)
    }
}

/// `"col" = ?` for each name.
fn assignment_list(cols: &Vec<String>) -> (r: Vec<String>)
    ensures
        r@.map_values(|p: String| p@) == assignments(cols@.map_values(|c: String| c@)),
{
    let mut r: Vec<String> = Vec::new();
    let mut i: usize = 0;
    while i < cols.len()
        invariant
            i <= cols.len(),
            r.len() == i,
            forall|j: int| 0 <= j < i ==> #[trigger] r@[j]@ == quoted(cols@[j]@) + " = ?"@,
        decreases cols.len() - i,
    {
        let mut s = quote_ident(cols[i].as_str());
        s.push_str(" = ?");
        r.push(s);
        i += 1;
    }
    assert(r@.map_values(|p: String| p@) =~= assignments(cols@.map_values(|c: String| c@)));
    r
}

/// The `WHERE` clause over the columns `cols`, each bound in turn.
pub fn where_clause(cols: &Vec<String>) -> (r: String)
    ensures
        r@ == where_sql(cols@.map_values(|c: String| c@)),
{
    let mut out = String::new();
    if cols.len() == 0 {
        return out;
    }
    out.push_str(" WHERE ");
    let parts = assignment_list(cols);
    push_joined(&mut out, &parts, " AND ");
    out
}

/// `INSERT INTO "t" ("a", "b") VALUES (?, ?)`: the values are bound in the
/// order of the columns.
pub open spec fn insert_sql(table: Seq<char>, cols: Seq<Seq<char>>) -> Seq<char> {
    "INSERT INTO "@ + quoted(table) + " ("@ + join(cols.map_values(|c: Seq<char>| quoted(c)), ", "@)
        + ") VALUES ("@ + join(placeholders(cols.len()), ", "@) + ")"@
}

/// The text of an `INSERT` of the columns `cols` into `table`.
pub fn insert_statement(table: &str, cols: &Vec<String>) -> (r: String)
    ensures
        r@ == insert_sql(table@, cols@.map_values(|c: String| c@)),
{
    let mut names: Vec<String> = Vec::new();
    let mut marks: Vec<String> = Vec::new();
    let mut i: usize = 0;
    while i < cols.len()
        invariant
            i <= cols.len(),
            names.len() == i,
            marks.len() == i,
            forall|j: int| 0 <= j < i ==> #[trigger] names@[j]@ == quoted(cols@[j]@),
            forall|j: int| 0 <= j < i ==> #[trigger] marks@[j]@ == "?"@,
        decreases cols.len() - i,
    {
        names.push(quote_ident(cols[i].as_str()));
        marks.push("?".to_string());
        i += 1;
    }
    let mut out = "INSERT INTO ".to_string();
    out.push_str(quote_ident(table).as_str());
    out.push_str(" (");
    push_joined(&mut out, &names, ", ");
    out.push_str(") VALUES (");
    push_joined(&mut out, &marks, ", ");
    out.push_str(")");
    proof {
        let cv = cols@.map_values(|c: String| c@);
        assert(names@.map_values(|p: String| p@) =~= cv.map_values(|c: Seq<char>| quoted(c)));
        assert(marks@.map_values(|p: String| p@) =~= placeholders(cv.len()));
    }
    out
}

/// A column's condition: its name and the value it must equal.
pub type Condition<V> = (String, V);

/// The column names of the conditions, in order.
pub open spec fn cond_names<V>(c: Seq<Condition<V>>) -> Seq<Seq<char>> {
    c.map_values(|p: Condition<V>| p.0@)
}

/// Column names strictly increasing, so each column occurs once.
pub open spec fn strictly_sorted<V>(c: Seq<Condition<V>>) -> bool {
    forall|i: int, j: int| 0 <= i < j < c.len() ==> str_lt(c[i].0@, c[j].0@)
}

/// The conditions as a map from column name to value.
pub open spec fn cond_map<V>(c: Seq<Condition<V>>) -> Map<Seq<char>, V>
    decreases c.len(),
{
    if c.len() == 0 {
        Map::empty()
    } else {
        cond_map(c.drop_last()).insert(c.last().0@, c.last().1)
    }
}

/// Statements on one table, narrowed by equality conditions.
#[derive(Clone, Debug)]
pub struct TableStmt<V> {
    table: String,
    conditions: Vec<Condition<V>>,
}

impl<V> TableStmt<V> {
    pub closed spec fn table_name(&self) -> Seq<char> {
        self.table@
    }

    pub closed spec fn conds(&self) -> Seq<Condition<V>> {
        self.conditions@
    }

    /// The conditions by column.
    pub open spec fn view_map(&self) -> Map<Seq<char>, V> {
        cond_map(self.conds())
    }

    /// The conditions are sorted by column, one per column.
    pub open spec fn wf(&self) -> bool {
        strictly_sorted(self.conds())
    }

    /// Statements on `table`, with no conditions.
    pub fn new(table: &str) -> (t: Self)
        ensures
            t.wf(),
            t.table_name() == table@,
            t.conds().len() == 0,
    {
        TableStmt { table: table.to_string(), conditions: Vec::new() }
    }

    /// The table's name.
    pub fn table(&self) -> (r: &str)
        ensures
            r@ == self.table_name(),
    {
        self.table.as_str()
    }

    /// The conditions in the order their values are bound.
    pub fn conditions(&self) -> (r: &Vec<Condition<V>>)
        ensures
            r@ == self.conds(),
    {
        &self.conditions
    }

    /// Add or replace the condition on one column.
    fn set_condition(&mut self, name: String, value: V)
        requires
            old(self).wf(),
        ensures
            final(self).wf(),
            final(self).table_name() == old(self).table_name(),
            final(self).view_map() == old(self).view_map().insert(name@, value),
    {
        let ghost before = self.conditions@;
        proof {
            lemma_cond_map_keys(before);
        }
        let mut k: usize = 0;
        while k < self.conditions.len() && str_less(self.conditions[k].0.as_str(), name.as_str())
            invariant
                k <= self.conditions.len(),
                self.conditions@ == before,
                strictly_sorted(before),
                forall|j: int| 0 <= j < k ==> str_lt(#[trigger] before[j].0@, name@),
            decreases self.conditions.len() - k,
        {
            k += 1;
        }
        if k < self.conditions.len() && self.conditions[k].0 == name {
            // replace the value of an existing column
            let ghost old_entry = before[k as int];
            self.conditions.remove(k);
            self.conditions.insert(k, (name, value));
            proof {
                before.remove_ensures(k as int);
                before.remove(k as int).insert_ensures(k as int, (name, value));
                let after = self.conditions@;
                assert(after =~= before.update(k as int, (name, value)));
                lemma_cond_map_update(before, k as int, (name, value));
            }
        } else {
            self.conditions.insert(k, (name, value));
            proof {
                before.insert_ensures(k as int, (name, value));
                let after = self.conditions@;
                if k < before.len() {
                    lemma_str_lt_total(before[k as int].0@, name@);
                }
                lemma_insert_sorted(before, k as int, (name, value));
                lemma_cond_map_insert_at(before, k as int, (name, value));
            }
        }
    }

    /// Narrow to the rows that also match every condition in `conditions`;
    /// a condition on a column that already has one replaces it.
    pub fn where_(self, conditions: Vec<Condition<V>>) -> (t: Self)
        requires
            self.wf(),
        ensures
            t.wf(),
            t.table_name() == self.table_name(),
            t.view_map() == self.view_map().union_prefer_right(cond_map(conditions@)),
    {
        let mut t = self;
        let mut rest = conditions;
        let ghost all = rest@;
        let ghost base = t.view_map();
        let ghost mut done: int = 0;
        assert(all.take(0) =~= Seq::<Condition<V>>::empty());
        assert(base.union_prefer_right(cond_map(all.take(0))) =~= base);
        while rest.len() > 0
            invariant
                t.wf(),
                t.table_name() == self.table_name(),
                0 <= done <= all.len(),
                rest@ == all.skip(done),
                t.view_map() == base.union_prefer_right(cond_map(all.take(done))),
            decreases rest.len(),
        {
            let ghost entry = all[done];
            let (name, value) = rest.remove(0);
            t.set_condition(name, value);
            proof {
                assert(all.take(done + 1).drop_last() =~= all.take(done));
                assert(all.take(done + 1).last() == entry);
                assert(t.view_map() =~= base.union_prefer_right(cond_map(all.take(done + 1))));
                done = done + 1;
                assert(rest@ =~= all.skip(done));
            }
        }
        assert(all.take(all.len() as int) =~= all);
        t
    }

    /// The column names of the conditions, in binding order.
    fn condition_names(&self) -> (r: Vec<String>)
        ensures
            r@.map_values(|c: String| c@) == cond_names(self.conds()),
    {
        let mut r: Vec<String> = Vec::new();
        let mut i: usize = 0;
        while i < self.conditions.len()
            invariant
                i <= self.conditions.len(),
                r.len() == i,
                forall|j: int| 0 <= j < i ==> #[trigger] r@[j]@ == self.conditions@[j].0@,
            decreases self.conditions.len() - i,
        {
            r.push(self.conditions[i].0.clone());
            i += 1;
        }
        assert(r@.map_values(|c: String| c@) =~= cond_names(self.conds()));
        r
    }

    /// `SELECT * FROM "t" WHERE ...`; the condition values are bound in the
    /// order of `conditions()`.
    pub fn all_sql(&self) -> (r: String)
        ensures
            r@ == "SELECT * FROM "@ + quoted(self.table_name()) + where_sql(cond_names(self.conds())),
    {
        let mut out = "SELECT * FROM ".to_string();
        out.push_str(quote_ident(self.table.as_str()).as_str());
        let names = self.condition_names();
        out.push_str(where_clause(&names).as_str());
        out
    }

    /// `SELECT * FROM "t" WHERE ... LIMIT 1`.
    pub fn one_sql(&self) -> (r: String)
        ensures
            r@ == "SELECT * FROM "@ + quoted(self.table_name()) + where_sql(cond_names(self.conds()))
                + " LIMIT 1"@,
    {
        let mut out = self.all_sql();
        out.push_str(" LIMIT 1");
        out
    }

    /// `DELETE FROM "t" WHERE ...`: with no conditions, every row.
    pub fn delete_sql(&self) -> (r: String)
        ensures
            r@ == "DELETE FROM "@ + quoted(self.table_name()) + where_sql(cond_names(self.conds())),
    {
        let mut out = "DELETE FROM ".to_string();
        out.push_str(quote_ident(self.table.as_str()).as_str());
        let names = self.condition_names();
        out.push_str(where_clause(&names).as_str());
        out
    }

    /// `INSERT INTO "t" (...) VALUES (...)` for the columns `cols`.
    pub fn insert_sql(&self, cols: &Vec<String>) -> (r: String)
        ensures
            r@ == insert_sql(self.table_name(), cols@.map_values(|c: String| c@)),
    {
        insert_statement(self.table.as_str(), cols)
    }

    /// `UPDATE "t" SET "a" = ?, ... WHERE ...`: the new values are bound
    /// first, in the order of `cols`, then the condition values.
    pub fn update_sql(&self, cols: &Vec<String>) -> (r: String)
        ensures
            r@ == "UPDATE "@ + quoted(self.table_name()) + " SET "@ + join(
                assignments(cols@.map_values(|c: String| c@)),
                ", "@,
            ) + where_sql(cond_names(self.conds())),
    {
        let mut out = "UPDATE ".to_string();
        out.push_str(quote_ident(self.table.as_str()).as_str());
        out.push_str(" SET ");
        let parts = assignment_list(cols);
        push_joined(&mut out, &parts, ", ");
        let names = self.condition_names();
        out.push_str(where_clause(&names).as_str());
        out
    }
}

proof fn lemma_insert_sorted<V>(c: Seq<Condition<V>>, k: int, e: Condition<V>)
    requires
        strictly_sorted(c),
        0 <= k <= c.len(),
        forall|j: int| 0 <= j < k ==> str_lt(#[trigger] c[j].0@, e.0@),
        k < c.len() ==> str_lt(e.0@, c[k].0@),
    ensures
        strictly_sorted(c.insert(k, e)),
{
    let d = c.insert(k, e);
    c.insert_ensures(k, e);
    assert forall|i: int, j: int| 0 <= i < j < d.len() implies str_lt(d[i].0@, d[j].0@) by {
        if j < k {
        } else if i > k {
            assert(d[i] == c[i - 1] && d[j] == c[j - 1]);
        } else if j == k {
            assert(d[i] == c[i]);
        } else if i == k {
            assert(d[j] == c[j - 1]);
            if j - 1 > k {
                lemma_str_lt_transitive(e.0@, c[k].0@, c[j - 1].0@);
            }
        } else {
            assert(d[i] == c[i] && d[j] == c[j - 1]);
            if j - 1 > k {
                lemma_str_lt_transitive(e.0@, c[k].0@, c[j - 1].0@);
            }
            lemma_str_lt_transitive(c[i].0@, e.0@, c[j - 1].0@);
        }
    }
}

proof fn lemma_cond_map_keys<V>(c: Seq<Condition<V>>)
    ensures
        forall|k: Seq<char>| #[trigger] cond_map(c).dom().contains(k) <==> exists|i: int|
            0 <= i < c.len() && c[i].0@ == k,
    decreases c.len(),
{
    if c.len() > 0 {
        lemma_cond_map_keys(c.drop_last());
        assert forall|k: Seq<char>| #[trigger] cond_map(c).dom().contains(k) implies exists|i: int|
            0 <= i < c.len() && c[i].0@ == k by {
            if k != c.last().0@ {
                assert(cond_map(c.drop_last()).dom().contains(k));
                let i = choose|i: int| 0 <= i < c.drop_last().len() && c.drop_last()[i].0@ == k;
                assert(c[i].0@ == k);
            } else {
                assert(c[c.len() - 1].0@ == k);
            }
        }
        assert forall|k: Seq<char>|
            (exists|i: int| 0 <= i < c.len() && c[i].0@ == k) implies #[trigger] cond_map(
            c,
        ).dom().contains(k) by {
            let i = choose|i: int| 0 <= i < c.len() && c[i].0@ == k;
            if i < c.len() - 1 {
                assert(c.drop_last()[i].0@ == k);
                assert(cond_map(c.drop_last()).dom().contains(k));
            }
        }
    }
}

/// With distinct names, the map gives each listed name its listed value.
proof fn lemma_cond_map_at<V>(c: Seq<Condition<V>>, i: int)
    requires
        strictly_sorted(c),
        0 <= i < c.len(),
    ensures
        cond_map(c).dom().contains(c[i].0@),
        cond_map(c)[c[i].0@] == c[i].1,
    decreases c.len(),
{
    if i < c.len() - 1 {
        let d = c.drop_last();
        assert(d[i] == c[i]);
        lemma_cond_map_at(d, i);
        assert(str_lt(c[i].0@, c.last().0@));
        lemma_str_lt_irreflexive(c[i].0@);
    }
}

proof fn lemma_cond_map_ext<V>(a: Seq<Condition<V>>, b: Seq<Condition<V>>, m: Map<Seq<char>, V>)
    requires
        strictly_sorted(a),
        strictly_sorted(b),
        forall|k: Seq<char>| #[trigger] m.dom().contains(k) <==> exists|i: int|
            0 <= i < b.len() && b[i].0@ == k,
        forall|i: int| 0 <= i < b.len() ==> #[trigger] m[b[i].0@] == b[i].1,
    ensures
        cond_map(b) == m,
{
    lemma_cond_map_keys(b);
    assert forall|k: Seq<char>| #[trigger] cond_map(b).dom().contains(k) implies cond_map(b)[k]
        == m[k] by {
        let i = choose|i: int| 0 <= i < b.len() && b[i].0@ == k;
        lemma_cond_map_at(b, i);
    }
    assert(cond_map(b) =~= m);
}

proof fn lemma_cond_map_update<V>(c: Seq<Condition<V>>, k: int, e: Condition<V>)
    requires
        strictly_sorted(c),
        0 <= k < c.len(),
        c[k].0@ == e.0@,
    ensures
        strictly_sorted(c.update(k, e)),
        cond_map(c.update(k, e)) == cond_map(c).insert(e.0@, e.1),
{
    let d = c.update(k, e);
    assert(strictly_sorted(d));
    lemma_cond_map_keys(c);
    let m = cond_map(c).insert(e.0@, e.1);
    assert forall|key: Seq<char>| #[trigger] m.dom().contains(key) <==> exists|i: int|
        0 <= i < d.len() && d[i].0@ == key by {
        if m.dom().contains(key) && key != e.0@ {
            let i = choose|i: int| 0 <= i < c.len() && c[i].0@ == key;
            assert(d[i].0@ == key);
        }
        if m.dom().contains(key) && key == e.0@ {
            assert(d[k].0@ == key);
        }
        if exists|i: int| 0 <= i < d.len() && d[i].0@ == key {
            let i = choose|i: int| 0 <= i < d.len() && d[i].0@ == key;
            if i != k {
                assert(c[i].0@ == key);
            }
        }
    }
    assert forall|i: int| 0 <= i < d.len() implies #[trigger] m[d[i].0@] == d[i].1 by {
        if i != k {
            lemma_cond_map_at(c, i);
            lemma_str_lt_irreflexive(c[i].0@);
            if i < k {
                assert(str_lt(c[i].0@, c[k].0@));
            } else {
                assert(str_lt(c[k].0@, c[i].0@));
            }
        }
    }
    lemma_cond_map_ext(c, d, m);
}

proof fn lemma_cond_map_insert_at<V>(c: Seq<Condition<V>>, k: int, e: Condition<V>)
    requires
        strictly_sorted(c),
        strictly_sorted(c.insert(k, e)),
        0 <= k <= c.len(),
    ensures
        cond_map(c.insert(k, e)) == cond_map(c).insert(e.0@, e.1),
{
    let d = c.insert(k, e);
    c.insert_ensures(k, e);
    lemma_cond_map_keys(c);
    let m = cond_map(c).insert(e.0@, e.1);
    assert forall|key: Seq<char>| #[trigger] m.dom().contains(key) <==> exists|i: int|
        0 <= i < d.len() && d[i].0@ == key by {
        if m.dom().contains(key) && key != e.0@ {
            let i = choose|i: int| 0 <= i < c.len() && c[i].0@ == key;
            if i < k {
                assert(d[i].0@ == key);
            } else {
                assert(d[i + 1].0@ == key);
            }
        }
        if m.dom().contains(key) && key == e.0@ {
            assert(d[k].0@ == key);
        }
        if exists|i: int| 0 <= i < d.len() && d[i].0@ == key {
            let i = choose|i: int| 0 <= i < d.len() && d[i].0@ == key;
            if i < k {
                assert(c[i].0@ == key);
            } else if i > k {
                assert(c[i - 1].0@ == key);
            }
        }
    }
    assert forall|i: int| 0 <= i < d.len() implies #[trigger] m[d[i].0@] == d[i].1 by {
        if i != k {
            let j = if i < k { i } else { i - 1 };
            assert(d[i] == c[j]);
            lemma_cond_map_at(c, j);
            lemma_str_lt_irreflexive(d[i].0@);
            if i < k {
                assert(str_lt(d[i].0@, d[k].0@));
            } else {
                assert(str_lt(d[k].0@, d[i].0@));
            }
        }
    }
    lemma_cond_map_ext(c, d, m);
}

/// Make a database address usable: `postgres…` and `sqlite…` addresses are
/// kept, `:memory:` becomes one in-memory database shared by every pooled
/// connection, and anything else is a file path opened read-write (created
/// if missing).
pub open spec fn normalise_dsn_spec(dsn: Seq<char>) -> Seq<char> {
    if dsn.len() >= 8 && dsn.subrange(0, 8) == "postgres"@ || dsn.len() >= 6 && dsn.subrange(0, 6)
        == "sqlite"@ {
        dsn
    } else if dsn == ":memory:"@ {
        "sqlite://file%3Arhp?mode=memory&cache=shared"@
    } else {
        "sqlite://"@ + dsn + "?mode=rwc"@
    }
}

fn has_prefix(s: &Vec<char>, p: &str) -> (b: bool)
    ensures
        b == (s@.len() >= p@.len() && s@.subrange(0, p@.len() as int) == p@),
{
    let pc = crate::text::chars_of(p);
    if pc.len() > s.len() {
        return false;
    }
    let mut i: usize = 0;
    while i < pc.len()
        invariant
            pc@ == p@,
            pc.len() <= s.len(),
            i <= pc.len(),
            forall|j: int| 0 <= j < i ==> s@[j] == pc@[j],
        decreases pc.len() - i,
    {
        if s[i] != pc[i] {
            assert(s@.subrange(0, p@.len() as int)[i as int] != p@[i as int]);
            return false;
        }
        i += 1;
    }
    assert(s@.subrange(0, p@.len() as int) =~= p@);
    true
}

/// See `normalise_dsn_spec`.
pub fn normalise_dsn(dsn: &str) -> (r: String)
    ensures
        r@ == normalise_dsn_spec(dsn@),
{
    let s = crate::text::chars_of(dsn);
    proof {
        reveal_strlit("postgres");
        reveal_strlit("sqlite");
        reveal_strlit(":memory:");
    }
    if has_prefix(&s, "postgres") || has_prefix(&s, "sqlite") {
        dsn.to_string()
    } else if s.len() == 8 && has_prefix(&s, ":memory:") {
        assert(dsn@ =~= ":memory:"@);
        "sqlite://file%3Arhp?mode=memory&cache=shared".to_string()
    } else {
        proof {
            if dsn@ == ":memory:"@ {
                assert(s@.subrange(0, 8) =~= s@);
            }
        }
        let mut out = "sqlite://".to_string();
        out.push_str(dsn);
        out.push_str("?mode=rwc");
        out
    }
}

/// Normalising an address twice changes nothing more: every address it
/// produces is already a `sqlite` one.
pub proof fn lemma_normalise_dsn_idempotent(dsn: Seq<char>)
    ensures
        normalise_dsn_spec(normalise_dsn_spec(dsn)) == normalise_dsn_spec(dsn),
{
    reveal_strlit("sqlite");
    reveal_strlit("sqlite://");
    reveal_strlit("sqlite://file%3Arhp?mode=memory&cache=shared");
    let r = normalise_dsn_spec(dsn);
    if !(dsn.len() >= 8 && dsn.subrange(0, 8) == "postgres"@ || dsn.len() >= 6 && dsn.subrange(
        0,
        6,
    ) == "sqlite"@) {
        assert(r.subrange(0, 6) =~= "sqlite"@);
    }
}

/// The column types of the SQL driver, as reported for a table's columns.
#[derive(Clone, Copy, Debug, PartialEq, Eq, Structural)]
pub enum ColumnKind {
    Null,
    Bool,
    SmallInt,
    Integer,
    BigInt,
    Real,
    Double,
    Text,
    Blob,
}

/// The SQL-ish name a column type is reported under; the integer widths are
/// all `INTEGER` (SQLite reports plain `INTEGER` columns as big integers).
pub fn kind_name(kind: ColumnKind) -> (r: &'static str)
    ensures
        r@ == (match kind {
            ColumnKind::Null => "NULL"@,
            ColumnKind::Bool => "BOOLEAN"@,
            ColumnKind::SmallInt | ColumnKind::Integer | ColumnKind::BigInt => "INTEGER"@,
            ColumnKind::Real => "REAL"@,
            ColumnKind::Double => "DOUBLE"@,
            ColumnKind::Blob => "BLOB"@,
            ColumnKind::Text => "TEXT"@,
        }),
{
    match kind {
        ColumnKind::Null => "NULL",
        ColumnKind::Bool => "BOOLEAN",
        ColumnKind::SmallInt | ColumnKind::Integer | ColumnKind::BigInt => "INTEGER",
        ColumnKind::Real => "REAL",
        ColumnKind::Double => "DOUBLE",
        ColumnKind::Blob => "BLOB",
        ColumnKind::Text => "TEXT",
    }
}

/// The row count `Count()` reports from the rows of `SELECT *`: none when
/// the query failed (its only row is then the error), else how many rows.
pub fn count_rows(rows: usize, first_is_error: bool) -> (r: i64)
    ensures
        r == (if first_is_error {
            0
        } else {
            rows as i64
        }),
{
    if first_is_error {
        0
    } else {
        rows as i64
    }
}

/// What a script asks of the transaction slot.
#[derive(Clone, Copy, Debug, PartialEq, Eq, Structural)]
pub enum TxAction {
    Begin,
    Commit,
    Rollback,
}

/// Why a transaction request is refused, given whether a transaction is
/// open: only one can be open, and only an open one can end.
pub fn transaction_error(open: bool, action: TxAction) -> (r: Option<&'static str>)
    ensures
        r matches Some(m) ==> m@ == match action {
            TxAction::Begin => "a transaction is already open"@,
            TxAction::Commit => "no transaction to commit"@,
            TxAction::Rollback => "no transaction to roll back"@,
        },
        r is Some <==> (action == TxAction::Begin && open || action != TxAction::Begin && !open),
{
    match action {
        TxAction::Begin => if open {
            Some("a transaction is already open")
        } else {
            None
        },
        TxAction::Commit => if open {
            None
        } else {
            Some("no transaction to commit")
        },
        TxAction::Rollback => if open {
            None
        } else {
            Some("no transaction to roll back")
        },
    }
}

/// The rows a query gives to a script: its rows, or, when it failed, the
/// error row alone.
pub fn rows_or_error<R>(result: Result<Vec<R>, R>) -> (r: Vec<R>)
    ensures
        r@ == match result {
            Ok(rows) => rows@,
            Err(e) => seq![e],
        },
{
    match result {
        Ok(rows) => rows,
        Err(e) => {
            let mut v: Vec<R> = Vec::new();
            v.push(e);
            v
        },
    }
}

} // verus!
