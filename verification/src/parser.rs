//! The SQL parser: statements as character sequences to statement values.
//!
//! Keywords are matched ignoring ASCII case; identifiers are runs of ASCII
//! letters, digits and `_`; whitespace is Unicode White_Space. A statement is
//! read from its start, after surrounding whitespace is trimmed.

use vstd::prelude::*;
use crate::text::{
    is_space, is_word, skip_space, word_end, trim, has_keyword, starts_with, find_char, split, words,
    spec_to_uppercase, skip_spaces, word_end_from, keyword_at, sub_chars, trim_chars, split_chars,
    words_of, chars_of, string_of, to_uppercase, chars_eq, space, str_eq, debug_value,
};
use crate::types::{Column, ColumnView, DataType, Value, ValueView, VelociError, Result, spec_data_type};

verus! {

/// A comparison in a WHERE clause.
#[derive(Debug, Clone, Copy, PartialEq, Eq, Structural)]
pub enum Operator {
    Equal,
    NotEqual,
    GreaterThan,
    LessThan,
    GreaterThanOrEqual,
    LessThanOrEqual,
    Like,
}

/// One condition of a WHERE clause: a column, an operator and a value.
#[derive(Debug, Clone, PartialEq)]
pub struct Condition {
    pub column: String,
    pub operator: Operator,
    pub value: Value,
}

/// The model of a [`Condition`].
pub struct ConditionView {
    pub column: Seq<char>,
    pub operator: Operator,
    pub value: ValueView,
}

impl View for Condition {
    type V = ConditionView;

    open spec fn view(&self) -> ConditionView {
        ConditionView { column: self.column@, operator: self.operator, value: self.value@ }
    }
}

/// A WHERE clause: conditions that must all hold.
#[derive(Debug, Clone, PartialEq)]
pub struct WhereClause {
    pub conditions: Vec<Condition>,
}

/// The conditions of a WHERE clause, as models.
pub open spec fn where_view(w: WhereClause) -> Seq<ConditionView> {
    w.conditions@.map_values(|c: Condition| c@)
}

/// The SQL parser.
pub struct Parser {}

/// A parsed SQL statement.
#[derive(Debug, Clone, PartialEq)]
pub enum Statement {
    CreateTable { name: String, columns: Vec<Column> },
    DropTable { name: String },
    Insert { table: String, columns: Option<Vec<String>>, values: Vec<Value> },
    Select { table: String, columns: Vec<String>, where_clause: Option<WhereClause> },
    Update {
        table: String,
        /// Column assignments, each column at most once, in the order first assigned.
        assignments: Vec<(String, Value)>,
        where_clause: Option<WhereClause>,
    },
    Delete { table: String, where_clause: Option<WhereClause> },
}

/// The model of a [`Statement`].
pub enum StatementView {
    CreateTable { name: Seq<char>, columns: Seq<ColumnView> },
    DropTable { name: Seq<char> },
    Insert { table: Seq<char>, columns: Option<Seq<Seq<char>>>, values: Seq<ValueView> },
    Select { table: Seq<char>, columns: Seq<Seq<char>>, where_clause: Option<Seq<ConditionView>> },
    Update {
        table: Seq<char>,
        assignments: Seq<(Seq<char>, ValueView)>,
        where_clause: Option<Seq<ConditionView>>,
    },
    Delete { table: Seq<char>, where_clause: Option<Seq<ConditionView>> },
}

/// Strings as models.
pub open spec fn strings_view(v: Seq<String>) -> Seq<Seq<char>> {
    v.map_values(|s: String| s@)
}

/// A WHERE clause as a model.
pub open spec fn opt_where_view(w: Option<WhereClause>) -> Option<Seq<ConditionView>> {
    match w {
        Some(c) => Some(where_view(c)),
        None => None,
    }
}

impl View for Statement {
    type V = StatementView;

    open spec fn view(&self) -> StatementView {
        match self {
            Statement::CreateTable { name, columns } => StatementView::CreateTable {
                name: name@,
                columns: columns@.map_values(|c: Column| c@),
            },
            Statement::DropTable { name } => StatementView::DropTable { name: name@ },
            Statement::Insert { table, columns, values } => StatementView::Insert {
                table: table@,
                columns: match columns {
                    Some(cs) => Some(strings_view(cs@)),
                    None => None,
                },
                values: values.deep_view(),
            },
            Statement::Select { table, columns, where_clause } => StatementView::Select {
                table: table@,
                columns: strings_view(columns@),
                where_clause: opt_where_view(*where_clause),
            },
            Statement::Update { table, assignments, where_clause } => StatementView::Update {
                table: table@,
                assignments: assignments@.map_values(|a: (String, Value)| (a.0@, a.1@)),
                where_clause: opt_where_view(*where_clause),
            },
            Statement::Delete { table, where_clause } => StatementView::Delete {
                table: table@,
                where_clause: opt_where_view(*where_clause),
            },
        }
    }
}

// ---------------------------------------------------------------------------
// Literal values

/// Whether `c` is an ASCII digit.
pub open spec fn is_digit(c: char) -> bool {
    '0' <= c && c <= '9'
}

/// The number that the decimal digits `ds` spell.
pub open spec fn digits_value(ds: Seq<char>) -> int
    decreases ds.len(),
{
    if ds.len() == 0 {
        0
    } else {
        digits_value(ds.drop_last()) * 10 + (ds.last() as u32 - '0' as u32)
    }
}

/// Whether every character of `ds` is an ASCII digit.
pub open spec fn all_digits(ds: Seq<char>) -> bool {
    forall|i: int| 0 <= i < ds.len() ==> is_digit(#[trigger] ds[i])
}

/// `i64::from_str`: an optional `+` or `-`, then one or more ASCII digits,
/// whose value fits an `i64`.
pub open spec fn parse_i64(t: Seq<char>) -> Option<i64> {
    let neg = t.len() > 0 && t[0] == '-';
    let signed = t.len() > 0 && (t[0] == '-' || t[0] == '+');
    let ds = if signed { t.subrange(1, t.len() as int) } else { t };
    if ds.len() == 0 || !all_digits(ds) {
        None
    } else {
        let v = if neg { -digits_value(ds) } else { digits_value(ds) };
        if i64::MIN <= v <= i64::MAX { Some(v as i64) } else { None }
    }
}

/// Whether `t` is wrapped in a pair of quotes of one kind.
pub open spec fn quoted(t: Seq<char>) -> bool {
    t.len() > 0 && ((t[0] == '\'' && t.last() == '\'') || (t[0] == '"' && t.last() == '"'))
}

proof fn lemma_digits_value_nonneg(ds: Seq<char>)
    requires
        forall|i: int| 0 <= i < ds.len() ==> is_digit(#[trigger] ds[i]),
    ensures
        digits_value(ds) >= 0,
    decreases ds.len(),
{
    if ds.len() > 0 {
        lemma_digits_value_nonneg(ds.drop_last());
    }
}

proof fn lemma_digits_value_grows(ds: Seq<char>, k: int)
    requires
        0 <= k <= ds.len(),
        forall|i: int| 0 <= i < ds.len() ==> is_digit(#[trigger] ds[i]),
    ensures
        digits_value(ds.subrange(0, k)) <= digits_value(ds),
    decreases ds.len() - k,
{
    if k < ds.len() {
        lemma_digits_value_grows(ds, k + 1);
        assert(ds.subrange(0, k + 1).drop_last() =~= ds.subrange(0, k));
        lemma_digits_value_nonneg(ds.subrange(0, k));
    } else {
        assert(ds.subrange(0, k) =~= ds);
    }
}

/// Parses an `i64` as `i64::from_str` does.
pub fn parse_i64_chars(t: &Vec<char>) -> (r: Option<i64>)
    ensures
        r == parse_i64(t@),
{
    let n = t.len();
    if n == 0 {
        return None;
    }
    let neg = t[0] == '-';
    let signed = t[0] == '-' || t[0] == '+';
    let start: usize = if signed { 1 } else { 0 };
    if start >= n {
        return None;
    }
    let ghost ds = if signed { t@.subrange(1, t@.len() as int) } else { t@ };
    assert(ds =~= t@.subrange(start as int, n as int));
    // magnitude so far, while it stays within 2^63
    let mut acc: u64 = 0;
    let mut i = start;
    while i < n
        invariant
            start <= i <= n,
            n == t@.len(),
            n > 0,
            signed == (t@[0] == '-' || t@[0] == '+'),
            neg == (t@[0] == '-'),
            start == (if signed { 1usize } else { 0usize }),
            ds == (if signed { t@.subrange(1, t@.len() as int) } else { t@ }),
            ds == t@.subrange(start as int, n as int),
            forall|j: int| 0 <= j < i - start ==> is_digit(#[trigger] ds[j]),
            acc as int == digits_value(ds.subrange(0, i - start)),
            acc <= 0x8000_0000_0000_0000u64,
        decreases n - i,
    {
        let c = t[i];
        if !('0' <= c && c <= '9') {
            assert(!is_digit(ds[i - start]));
            assert(!all_digits(ds));
            return None;
        }
        let dgt = (c as u32 - '0' as u32) as u64;
        proof {
            assert(ds.subrange(0, i - start + 1).drop_last() =~= ds.subrange(0, i - start));
        }
        if acc > (0x8000_0000_0000_0000u64 - dgt) / 10 {
            // the magnitude passes 2^63: no i64 has it, whatever follows
            proof {
                assert(digits_value(ds.subrange(0, i - start + 1)) > 0x8000_0000_0000_0000) by (nonlinear_arith)
                    requires
                        digits_value(ds.subrange(0, i - start + 1)) == acc * 10 + dgt,
                        acc > (0x8000_0000_0000_0000u64 - dgt) / 10,
                        dgt <= 9;
                if all_digits(ds) {
                    lemma_digits_value_grows(ds, i - start + 1);
                    assert(ds.subrange(0, ds.len() as int) =~= ds);
                    assert(digits_value(ds) > i64::MAX);
                }
            }
            return None;
        }
        acc = acc * 10 + dgt;
        i = i + 1;
    }
    proof {
        assert(ds.subrange(0, ds.len() as int) =~= ds);
    }
    if neg {
        if acc == 0x8000_0000_0000_0000u64 {
            Some(i64::MIN)
        } else {
            Some(-(acc as i64))
        }
    } else {
        if acc > i64::MAX as u64 {
            None
        } else {
            Some(acc as i64)
        }
    }
}



/// The literal that the trimmed text `t` denotes, given `u`, the upper-case
/// form of `t`.
pub open spec fn spec_literal(t: Seq<char>, u: Seq<char>) -> Option<ValueView> {
    if u == "NULL"@ {
        Some(ValueView::Null)
    } else if quoted(t) {
        if t.len() >= 2 { Some(ValueView::Text(t.subrange(1, t.len() - 1))) } else { None }
    } else {
        match parse_i64(t) {
            Some(i) => Some(ValueView::Integer(i)),
            None => Some(ValueView::Text(t)),
        }
    }
}

/// A literal: NULL (any case), a quoted string, an integer, or else the
/// text itself. A lone quote character is refused.
pub open spec fn spec_parse_value(s: Seq<char>) -> Option<ValueView> {
    spec_literal(trim(s), spec_to_uppercase(trim(s)))
}

/// Classifies the trimmed literal `t`, whose upper-case form is `upper`.
pub fn literal_value(t: &Vec<char>, upper: &Vec<char>) -> (r: Option<Value>)
    ensures
        match r {
            Some(v) => spec_literal(t@, upper@) == Some(v@),
            None => spec_literal(t@, upper@) is None,
        },
{
    if chars_eq(upper, "NULL") {
        return Some(Value::Null);
    }
    let n = t.len();
    if n > 0 && ((t[0] == '\'' && t[n - 1] == '\'') || (t[0] == '"' && t[n - 1] == '"')) {
        if n >= 2 {
            let inner = sub_chars(t, 1, n - 1);
            return Some(Value::Text(string_of(inner.as_slice())));
        } else {
            return None;
        }
    }
    match parse_i64_chars(t) {
        Some(i) => Some(Value::Integer(i)),
        None => Some(Value::Text(string_of(t.as_slice()))),
    }
}

/// Parses a literal value; `None` for a lone quote character.
pub fn parse_value(s: &Vec<char>) -> (r: Option<Value>)
    ensures
        match r {
            Some(v) => spec_parse_value(s@) == Some(v@),
            None => spec_parse_value(s@) is None,
        },
{
    let t = trim_chars(s);
    let text = string_of(t.as_slice());
    let upper = chars_of(to_uppercase(text.as_str()).as_str());
    literal_value(&t, &upper)
}

// ---------------------------------------------------------------------------
// Positions in a statement

/// A position that the executable code found, against the one the grammar
/// gives.
pub open spec fn same_pos(r: Option<usize>, o: Option<int>) -> bool {
    match r {
        Some(j) => o == Some(j as int),
        None => o is None,
    }
}

/// After the keyword `kw` at `i` and at least one whitespace character, the
/// index of the next character that is not whitespace.
pub open spec fn after_kw_spaces(s: Seq<char>, i: int, kw: Seq<char>) -> Option<int> {
    let j = i + kw.len();
    if has_keyword(s, i, kw) && j < s.len() && is_space(s[j]) {
        Some(skip_space(s, j))
    } else {
        None
    }
}

/// The index of the first `c` in `s` from `i` on, or the length.
pub fn find_char_from(s: &Vec<char>, c: char, i: usize) -> (j: usize)
    requires
        i <= s@.len(),
    ensures
        j == find_char(s@, c, i as int),
        i <= j <= s@.len(),
{
    let mut j = i;
    while j < s.len() && s[j] != c
        invariant
            i <= j <= s@.len(),
            find_char(s@, c, i as int) == find_char(s@, c, j as int),
        decreases s.len() - j,
    {
        j = j + 1;
    }
    j
}

/// Finds the keyword `kw` at `i` followed by whitespace; gives the index of
/// what follows the whitespace.
pub fn kw_spaces(s: &Vec<char>, i: usize, kw: &str) -> (r: Option<usize>)
    requires
        i <= s@.len(),
    ensures
        same_pos(r, after_kw_spaces(s@, i as int, kw@)),
        r matches Some(j) ==> j <= s@.len(),
{
    if !keyword_at(s, i, kw) {
        return None;
    }
    let k = chars_of(kw);
    let kl = k.len();
    let n = s.len();
    assert(i + kl <= n);
    let j = i + kl;
    if j < s.len() && space(s[j]) {
        Some(skip_spaces(s, j))
    } else {
        None
    }
}

// ---------------------------------------------------------------------------
// WHERE clauses

/// The operator at `o` in `c` and its length; the longest one that matches
/// wins, and `LIKE` is matched in upper case only.
pub open spec fn op_at(c: Seq<char>, o: int) -> Option<(Operator, int)> {
    let two = if 0 <= o && o + 2 <= c.len() { c.subrange(o, o + 2) } else { Seq::empty() };
    let one = if 0 <= o && o < c.len() { c[o] } else { ' ' };
    if two == ">="@ {
        Some((Operator::GreaterThanOrEqual, 2))
    } else if two == "<="@ {
        Some((Operator::LessThanOrEqual, 2))
    } else if two == "!="@ || two == "<>"@ {
        Some((Operator::NotEqual, 2))
    } else if one == '=' {
        Some((Operator::Equal, 1))
    } else if one == '>' {
        Some((Operator::GreaterThan, 1))
    } else if one == '<' {
        Some((Operator::LessThan, 1))
    } else if 0 <= o && o + 4 <= c.len() && c.subrange(o, o + 4) == "LIKE"@ {
        Some((Operator::Like, 4))
    } else {
        None
    }
}

/// The operator read at `o` is the one spelled there, longest spelling
/// first: `>=`, `<=`, `!=` and `<>` take two characters, `=`, `>` and `<`
/// one (when no two-character spelling starts there), `LIKE` four; and
/// whatever is read is the operator that the characters it takes spell.
pub proof fn law_operator_spellings(c: Seq<char>, o: int)
    requires
        0 <= o,
    ensures
        o + 2 <= c.len() && c[o] == '>' && c[o + 1] == '=' ==> op_at(c, o) == Some((Operator::GreaterThanOrEqual, 2int)),
        o + 2 <= c.len() && c[o] == '<' && c[o + 1] == '=' ==> op_at(c, o) == Some((Operator::LessThanOrEqual, 2int)),
        o + 2 <= c.len() && c[o] == '!' && c[o + 1] == '=' ==> op_at(c, o) == Some((Operator::NotEqual, 2int)),
        o + 2 <= c.len() && c[o] == '<' && c[o + 1] == '>' ==> op_at(c, o) == Some((Operator::NotEqual, 2int)),
        o < c.len() && c[o] == '=' ==> op_at(c, o) == Some((Operator::Equal, 1int)),
        o < c.len() && c[o] == '>' && !(o + 1 < c.len() && c[o + 1] == '=') ==> op_at(c, o) == Some((Operator::GreaterThan, 1int)),
        o < c.len() && c[o] == '<' && !(o + 1 < c.len() && (c[o + 1] == '=' || c[o + 1] == '>')) ==> op_at(c, o) == Some(
            (Operator::LessThan, 1int),
        ),
        o + 4 <= c.len() && c[o] == 'L' && c[o + 1] == 'I' && c[o + 2] == 'K' && c[o + 3] == 'E' ==> op_at(c, o) == Some(
            (Operator::Like, 4int),
        ),
        op_at(c, o) matches Some((op, len)) ==> o + len <= c.len() && spec_operator(c.subrange(o, o + len)) == Some(op),
{
    reveal_strlit(">=");
    reveal_strlit("<=");
    reveal_strlit("!=");
    reveal_strlit("<>");
    reveal_strlit("LIKE");
    reveal_strlit("=");
    reveal_strlit(">");
    reveal_strlit("<");
    assert(">="@ =~= seq!['>', '=']);
    assert("<="@ =~= seq!['<', '=']);
    assert("!="@ =~= seq!['!', '=']);
    assert("<>"@ =~= seq!['<', '>']);
    assert("LIKE"@ =~= seq!['L', 'I', 'K', 'E']);
    assert("="@ =~= seq!['=']);
    assert(">"@ =~= seq!['>']);
    assert("<"@ =~= seq!['<']);
    if o + 2 <= c.len() {
        let two = c.subrange(o, o + 2);
        assert(two[0] == c[o] && two[1] == c[o + 1]);
        if c[o] == '>' && c[o + 1] == '=' {
            assert(two =~= seq!['>', '=']);
        }
        if c[o] == '<' && c[o + 1] == '=' {
            assert(two =~= seq!['<', '=']);
        }
        if c[o] == '!' && c[o + 1] == '=' {
            assert(two =~= seq!['!', '=']);
        }
        if c[o] == '<' && c[o + 1] == '>' {
            assert(two =~= seq!['<', '>']);
        }
    }
    if o + 4 <= c.len() && c[o] == 'L' && c[o + 1] == 'I' && c[o + 2] == 'K' && c[o + 3] == 'E' {
        assert(c.subrange(o, o + 4) =~= seq!['L', 'I', 'K', 'E']);
    }
    if o < c.len() {
        assert(c.subrange(o, o + 1) =~= seq![c[o]]);
    }
    if let Some((op, len)) = op_at(c, o) {
        let w = c.subrange(o, o + len);
        if len == 1 {
            assert(w =~= seq![c[o]]);
            assert(w.len() != ">="@.len() && w.len() != "LIKE"@.len());
            assert(w.len() != "!="@.len() && w.len() != "<>"@.len() && w.len() != "<="@.len());
            if c[o] == '=' {
                assert(w =~= "="@);
            } else if c[o] == '>' {
                assert(w != "="@) by {
                    assert(w[0] != "="@[0]);
                }
                assert(w =~= ">"@);
            } else {
                assert(w != "="@ && w != ">"@) by {
                    assert(w[0] != "="@[0] && w[0] != ">"@[0]);
                }
                assert(w =~= "<"@);
            }
        } else if len == 4 {
            assert(w =~= "LIKE"@);
            assert(w.len() != "="@.len() && w.len() != "!="@.len() && w.len() != "<>"@.len());
            assert(w.len() != ">"@.len() && w.len() != "<"@.len() && w.len() != ">="@.len() && w.len() != "<="@.len());
        } else {
            assert(w.len() == 2);
            assert(w.len() != "="@.len() && w.len() != ">"@.len() && w.len() != "<"@.len());
            assert(w[0] == c[o] && w[1] == c[o + 1]);
            if op is GreaterThanOrEqual {
                assert(w =~= ">="@);
                assert(w != "!="@ && w != "<>"@) by {
                    assert(w[0] != "!="@[0] && w[0] != "<>"@[0]);
                }
            } else if op is LessThanOrEqual {
                assert(w =~= "<="@);
                assert(w != "!="@ && w != ">="@) by {
                    assert(w[0] != "!="@[0] && w[0] != ">="@[0]);
                }
                assert(w != "<>"@) by {
                    assert(w[1] != "<>"@[1]);
                }
            } else {
                assert(w =~= "!="@ || w =~= "<>"@);
            }
        }
    }
}

/// A condition `column op value`: the column name starts the clause, and the
/// value is the rest of it after the operator, which must not be empty.
pub open spec fn spec_parse_where(c: Seq<char>) -> Option<Seq<ConditionView>> {
    let w = word_end(c, 0);
    let o = skip_space(c, w);
    if w == 0 {
        None
    } else {
        match op_at(c, o) {
            Some((op, len)) => {
                let rest = c.subrange(o + len, c.len() as int);
                if rest.len() == 0 {
                    None
                } else {
                    match spec_parse_value(rest) {
                        Some(v) => Some(seq![ConditionView { column: c.subrange(0, w), operator: op, value: v }]),
                        None => None,
                    }
                }
            },
            None => None,
        }
    }
}

/// Two characters of `c` at `o`, if there are two.
fn pair_is(c: &Vec<char>, o: usize, a: char, b: char) -> (r: bool)
    requires
        o <= c@.len(),
    ensures
        r == (o + 2 <= c@.len() && c@.subrange(o as int, o + 2) == seq![a, b]),
{
    if c.len() - o >= 2 {
        let r = c[o] == a && c[o + 1] == b;
        proof {
            if r {
                assert(c@.subrange(o as int, o + 2) =~= seq![a, b]);
            } else if c@.subrange(o as int, o + 2) == seq![a, b] {
                assert(c@.subrange(o as int, o + 2)[0] == a);
                assert(c@.subrange(o as int, o + 2)[1] == b);
            }
        }
        r
    } else {
        false
    }
}

/// Reads the operator at `o`.
pub fn operator_at(c: &Vec<char>, o: usize) -> (r: Option<(Operator, usize)>)
    requires
        o <= c@.len(),
    ensures
        match r {
            Some((op, len)) => op_at(c@, o as int) == Some((op, len as int)),
            None => op_at(c@, o as int) is None,
        },
        r matches Some((op, len)) ==> o + len <= c@.len(),
{
    proof {
        reveal_strlit(">=");
        reveal_strlit("<=");
        reveal_strlit("!=");
        reveal_strlit("<>");
        reveal_strlit("LIKE");
        assert(">="@ =~= seq!['>', '=']);
        assert("<="@ =~= seq!['<', '=']);
        assert("!="@ =~= seq!['!', '=']);
        assert("<>"@ =~= seq!['<', '>']);
        assert("LIKE"@ =~= seq!['L', 'I', 'K', 'E']);
    }
    if pair_is(c, o, '>', '=') {
        return Some((Operator::GreaterThanOrEqual, 2));
    }
    if pair_is(c, o, '<', '=') {
        return Some((Operator::LessThanOrEqual, 2));
    }
    if pair_is(c, o, '!', '=') || pair_is(c, o, '<', '>') {
        return Some((Operator::NotEqual, 2));
    }
    proof {
        if o + 2 <= c@.len() {
            assert(c@.subrange(o as int, o + 2) != seq!['>', '=']);
        }
    }
    if o < c.len() {
        if c[o] == '=' {
            return Some((Operator::Equal, 1));
        }
        if c[o] == '>' {
            return Some((Operator::GreaterThan, 1));
        }
        if c[o] == '<' {
            return Some((Operator::LessThan, 1));
        }
    }
    if c.len() - o >= 4 && c[o] == 'L' && c[o + 1] == 'I' && c[o + 2] == 'K' && c[o + 3] == 'E' {
        proof {
            assert(c@.subrange(o as int, o + 4) =~= seq!['L', 'I', 'K', 'E']);
        }
        return Some((Operator::Like, 4));
    }
    proof {
        if o + 4 <= c@.len() && c@.subrange(o as int, o + 4) == "LIKE"@ {
            assert(c@.subrange(o as int, o + 4)[0] == 'L');
            assert(c@.subrange(o as int, o + 4)[1] == 'I');
            assert(c@.subrange(o as int, o + 4)[2] == 'K');
            assert(c@.subrange(o as int, o + 4)[3] == 'E');
        }
    }
    None
}

/// Parses a WHERE clause.
pub fn parse_where(c: &Vec<char>) -> (r: Option<WhereClause>)
    ensures
        match r {
            Some(w) => spec_parse_where(c@) == Some(where_view(w)),
            None => spec_parse_where(c@) is None,
        },
{
    let w = word_end_from(c, 0);
    if w == 0 {
        return None;
    }
    let o = skip_spaces(c, w);
    match operator_at(c, o) {
        Some((op, len)) => {
            if len == c.len() - o {
                return None;
            }
            let rest = sub_chars(c, o + len, c.len());
            match parse_value(&rest) {
                Some(v) => {
                    let column = string_of(sub_chars(c, 0, w).as_slice());
                    let cond = Condition { column, operator: op, value: v };
                    let mut conditions: Vec<Condition> = Vec::new();
                    conditions.push(cond);
                    let wc = WhereClause { conditions };
                    proof {
                        assert(where_view(wc) =~= seq![cond@]);
                    }
                    Some(wc)
                },
                None => None,
            }
        },
        None => None,
    }
}



// ---------------------------------------------------------------------------
// Lists

/// The pieces of a split, as models.
pub open spec fn pieces_view(v: Seq<Vec<char>>) -> Seq<Seq<char>> {
    v.map_values(|p: Vec<char>| p@)
}

/// Literal values, one per piece; `None` when one of them is refused.
pub open spec fn spec_values(pieces: Seq<Seq<char>>) -> Option<Seq<ValueView>>
    decreases pieces.len(),
{
    if pieces.len() == 0 {
        Some(Seq::empty())
    } else {
        match spec_values(pieces.drop_last()) {
            Some(vs) => match spec_parse_value(pieces.last()) {
                Some(v) => Some(vs.push(v)),
                None => None,
            },
            None => None,
        }
    }
}

/// A comma-separated list of names, each trimmed.
pub open spec fn name_list(g: Seq<char>) -> Seq<Seq<char>> {
    split(trim(g), ',').map_values(|p: Seq<char>| trim(p))
}

/// The index of the first assignment to `k` in `m` from `i` on, or the
/// length.
pub open spec fn key_index(m: Seq<(Seq<char>, ValueView)>, k: Seq<char>, i: int) -> int
    decreases m.len() - i,
{
    if 0 <= i < m.len() && m[i].0 != k {
        key_index(m, k, i + 1)
    } else {
        i
    }
}

/// Assigning `v` to `k`: a later assignment to a column replaces the
/// earlier one in its place.
pub open spec fn assign(m: Seq<(Seq<char>, ValueView)>, k: Seq<char>, v: ValueView) -> Seq<(Seq<char>, ValueView)> {
    let i = key_index(m, k, 0);
    if 0 <= i < m.len() {
        m.update(i, (k, v))
    } else {
        m.push((k, v))
    }
}

/// The assignments `column = value`, one per piece; `None` when a piece is
/// not one `=` between two parts, or its value is refused.
pub open spec fn spec_assignments(pieces: Seq<Seq<char>>) -> Option<Seq<(Seq<char>, ValueView)>>
    decreases pieces.len(),
{
    if pieces.len() == 0 {
        Some(Seq::empty())
    } else {
        match spec_assignments(pieces.drop_last()) {
            Some(m) => {
                let parts = split(pieces.last(), '=');
                if parts.len() == 2 {
                    match spec_parse_value(parts[1]) {
                        Some(v) => Some(assign(m, trim(parts[0]), v)),
                        None => None,
                    }
                } else {
                    None
                }
            },
            None => None,
        }
    }
}

/// A column definition from its words and their upper-case forms: a name,
/// a type, then constraint words anywhere among the words.
pub open spec fn spec_column_with(parts: Seq<Seq<char>>, ups: Seq<Seq<char>>) -> Option<ColumnView> {
    if parts.len() < 2 {
        None
    } else {
        let pk = ups.contains("PRIMARY"@) && ups.contains("KEY"@);
        Some(ColumnView {
            name: parts[0],
            data_type: spec_data_type(ups[1]),
            primary_key: pk,
            not_null: pk || (ups.contains("NOT"@) && ups.contains("NULL"@)),
            unique: ups.contains("UNIQUE"@),
        })
    }
}

/// A column definition from its words.
pub open spec fn spec_column(parts: Seq<Seq<char>>) -> Option<ColumnView> {
    spec_column_with(parts, parts.map_values(|p: Seq<char>| spec_to_uppercase(p)))
}

/// Column definitions, one per piece.
pub open spec fn spec_columns(pieces: Seq<Seq<char>>) -> Option<Seq<ColumnView>>
    decreases pieces.len(),
{
    if pieces.len() == 0 {
        Some(Seq::empty())
    } else {
        match spec_columns(pieces.drop_last()) {
            Some(cs) => match spec_column(words(pieces.last())) {
                Some(c) => Some(cs.push(c)),
                None => None,
            },
            None => None,
        }
    }
}

fn values_from(pieces: &Vec<Vec<char>>) -> (r: Option<Vec<Value>>)
    ensures
        match r {
            Some(vs) => spec_values(pieces_view(pieces@)) == Some(vs.deep_view()),
            None => spec_values(pieces_view(pieces@)) is None,
        },
{
    let ghost pv = pieces_view(pieces@);
    let mut out: Vec<Value> = Vec::new();
    let mut i: usize = 0;
    proof {
        assert(pv.take(0) =~= Seq::<Seq<char>>::empty());
        assert(out.deep_view() =~= Seq::<ValueView>::empty());
    }
    while i < pieces.len()
        invariant
            i <= pieces@.len(),
            pv == pieces_view(pieces@),
            spec_values(pv.take(i as int)) == Some(out.deep_view()),
        decreases pieces.len() - i,
    {
        proof {
            assert(pv.take(i + 1).drop_last() =~= pv.take(i as int));
        }
        match parse_value(&pieces[i]) {
            Some(v) => {
                let ghost before = out.deep_view();
                out.push(v);
                proof {
                    assert(out.deep_view() =~= before.push(v@));
                }
            },
            None => {
                proof {
                    lemma_values_prefix(pv, i as int + 1);
                }
                return None;
            },
        }
        i = i + 1;
    }
    proof {
        assert(pv.take(i as int) =~= pv);
    }
    Some(out)
}

proof fn lemma_values_prefix(pv: Seq<Seq<char>>, k: int)
    requires
        0 <= k <= pv.len(),
        spec_values(pv.take(k)) is None,
    ensures
        spec_values(pv) is None,
    decreases pv.len() - k,
{
    if k < pv.len() {
        assert(pv.take(k + 1).drop_last() =~= pv.take(k));
        lemma_values_prefix(pv, k + 1);
    } else {
        assert(pv.take(k) =~= pv);
    }
}

fn names_from(g: &Vec<char>) -> (r: Vec<String>)
    ensures
        strings_view(r@) == name_list(g@),
{
    let t = trim_chars(g);
    let pieces = split_chars(&t, ',');
    let ghost pv = pieces_view(pieces@);
    let mut out: Vec<String> = Vec::new();
    let mut i: usize = 0;
    while i < pieces.len()
        invariant
            i <= pieces@.len(),
            pv == pieces_view(pieces@),
            pv == split(trim(g@), ','),
            strings_view(out@) == pv.take(i as int).map_values(|p: Seq<char>| trim(p)),
        decreases pieces.len() - i,
    {
        let piece = trim_chars(&pieces[i]);
        let name = string_of(piece.as_slice());
        let ghost before = out@;
        out.push(name);
        proof {
            assert(strings_view(out@) =~= strings_view(before).push(name@));
            assert(pv.take(i + 1).map_values(|p: Seq<char>| trim(p)) =~= pv.take(i as int).map_values(
                |p: Seq<char>| trim(p),
            ).push(trim(pv[i as int])));
        }
        i = i + 1;
    }
    proof {
        assert(pv.take(i as int) =~= pv);
    }
    out
}

proof fn lemma_key_index_bounds(m: Seq<(Seq<char>, ValueView)>, k: Seq<char>, i: int)
    requires
        0 <= i <= m.len(),
    ensures
        i <= key_index(m, k, i) <= m.len(),
        key_index(m, k, i) < m.len() ==> m[key_index(m, k, i)].0 == k,
    decreases m.len() - i,
{
    if i < m.len() && m[i].0 != k {
        lemma_key_index_bounds(m, k, i + 1);
    }
}

/// The assignment list as models.
pub open spec fn assignments_view(v: Seq<(String, Value)>) -> Seq<(Seq<char>, ValueView)> {
    v.map_values(|a: (String, Value)| (a.0@, a.1@))
}

fn assign_into(m: &mut Vec<(String, Value)>, k: String, v: Value)
    ensures
        assignments_view(final(m)@) == assign(assignments_view(old(m)@), k@, v@),
{
    let ghost mv = assignments_view(m@);
    let mut i: usize = 0;
    while i < m.len()
        invariant
            i <= m@.len(),
            mv == assignments_view(m@),
            key_index(mv, k@, 0) == key_index(mv, k@, i as int),
        ensures
            i <= m@.len(),
            mv == assignments_view(m@),
            key_index(mv, k@, 0) == key_index(mv, k@, i as int),
            i < m@.len() ==> mv[i as int].0 == k@,
        decreases m.len() - i,
    {
        if str_eq(m[i].0.as_str(), k.as_str()) {
            proof {
                assert(mv[i as int].0 == k@);
            }
            break;
        }
        i = i + 1;
    }
    proof {
        lemma_key_index_bounds(mv, k@, i as int);
        assert(key_index(mv, k@, i as int) == i);
        assert(key_index(mv, k@, 0) == i);
    }
    if i < m.len() {
        let ghost kv = k@;
        let ghost vv = v@;
        m.set(i, (k, v));
        proof {
            assert(assignments_view(m@) =~= mv.update(i as int, (kv, vv)));
        }
    } else {
        let ghost kv = k@;
        let ghost vv = v@;
        m.push((k, v));
        proof {
            assert(assignments_view(m@) =~= mv.push((kv, vv)));
        }
    }
}

fn assignments_from(pieces: &Vec<Vec<char>>) -> (r: Option<Vec<(String, Value)>>)
    ensures
        match r {
            Some(m) => spec_assignments(pieces_view(pieces@)) == Some(assignments_view(m@)),
            None => spec_assignments(pieces_view(pieces@)) is None,
        },
{
    let ghost pv = pieces_view(pieces@);
    let mut out: Vec<(String, Value)> = Vec::new();
    let mut i: usize = 0;
    proof {
        assert(pv.take(0) =~= Seq::<Seq<char>>::empty());
        assert(assignments_view(out@) =~= Seq::<(Seq<char>, ValueView)>::empty());
    }
    while i < pieces.len()
        invariant
            i <= pieces@.len(),
            pv == pieces_view(pieces@),
            spec_assignments(pv.take(i as int)) == Some(assignments_view(out@)),
        decreases pieces.len() - i,
    {
        proof {
            assert(pv.take(i + 1).drop_last() =~= pv.take(i as int));
        }
        let parts = split_chars(&pieces[i], '=');
        if parts.len() != 2 {
            proof {
                assert(pieces_view(parts@).len() == parts@.len());
                lemma_assignments_prefix(pv, i as int + 1);
            }
            return None;
        }
        proof {
            assert(pieces_view(parts@)[1] == parts@[1]@);
            assert(pieces_view(parts@)[0] == parts@[0]@);
        }
        match parse_value(&parts[1]) {
            Some(v) => {
                let col = string_of(trim_chars(&parts[0]).as_slice());
                assign_into(&mut out, col, v);
            },
            None => {
                proof {
                    lemma_assignments_prefix(pv, i as int + 1);
                }
                return None;
            },
        }
        i = i + 1;
    }
    proof {
        assert(pv.take(i as int) =~= pv);
    }
    Some(out)
}

proof fn lemma_assignments_prefix(pv: Seq<Seq<char>>, k: int)
    requires
        0 <= k <= pv.len(),
        spec_assignments(pv.take(k)) is None,
    ensures
        spec_assignments(pv) is None,
    decreases pv.len() - k,
{
    if k < pv.len() {
        assert(pv.take(k + 1).drop_last() =~= pv.take(k));
        lemma_assignments_prefix(pv, k + 1);
    } else {
        assert(pv.take(k) =~= pv);
    }
}

fn contains_word(ups: &Vec<Vec<char>>, w: &str) -> (b: bool)
    ensures
        b == pieces_view(ups@).contains(w@),
{
    let mut i: usize = 0;
    while i < ups.len()
        invariant
            i <= ups@.len(),
            forall|j: int| 0 <= j < i ==> ups@[j]@ != w@,
        decreases ups.len() - i,
    {
        if chars_eq(&ups[i], w) {
            proof {
                assert(pieces_view(ups@)[i as int] == w@);
            }
            return true;
        }
        i = i + 1;
    }
    proof {
        if pieces_view(ups@).contains(w@) {
            let j = choose|j: int| 0 <= j < pieces_view(ups@).len() && pieces_view(ups@)[j] == w@;
            assert(ups@[j]@ == w@);
        }
    }
    false
}

/// A column definition from its words `parts` and their upper-case forms
/// `ups`.
pub fn column_from_words(parts: &Vec<Vec<char>>, ups: &Vec<Vec<char>>) -> (r: Option<Column>)
    requires
        parts@.len() == ups@.len(),
    ensures
        match r {
            Some(c) => spec_column_with(pieces_view(parts@), pieces_view(ups@)) == Some(c@),
            None => spec_column_with(pieces_view(parts@), pieces_view(ups@)) is None,
        },
{
    if parts.len() < 2 {
        return None;
    }
    let name = string_of(parts[0].as_slice());
    let data_type = DataType::from_upper(&ups[1]);
    let primary_key = contains_word(ups, "PRIMARY") && contains_word(ups, "KEY");
    let not_null = primary_key || (contains_word(ups, "NOT") && contains_word(ups, "NULL"));
    let unique = contains_word(ups, "UNIQUE");
    Some(Column { name, data_type, primary_key, not_null, unique })
}

fn column_from(piece: &Vec<char>) -> (r: Option<Column>)
    ensures
        match r {
            Some(c) => spec_column(words(piece@)) == Some(c@),
            None => spec_column(words(piece@)) is None,
        },
{
    let parts = words_of(piece);
    let mut ups: Vec<Vec<char>> = Vec::new();
    let mut i: usize = 0;
    while i < parts.len()
        invariant
            i <= parts@.len(),
            ups@.len() == i,
            forall|j: int| 0 <= j < i ==> ups@[j]@ == spec_to_uppercase(#[trigger] parts@[j]@),
        decreases parts.len() - i,
    {
        let text = string_of(parts[i].as_slice());
        let u = chars_of(to_uppercase(text.as_str()).as_str());
        ups.push(u);
        i = i + 1;
    }
    proof {
        assert(pieces_view(ups@) =~= pieces_view(parts@).map_values(|p: Seq<char>| spec_to_uppercase(p)));
    }
    column_from_words(&parts, &ups)
}

fn columns_from(pieces: &Vec<Vec<char>>) -> (r: Option<Vec<Column>>)
    ensures
        match r {
            Some(cs) => spec_columns(pieces_view(pieces@)) == Some(cs@.map_values(|c: Column| c@)),
            None => spec_columns(pieces_view(pieces@)) is None,
        },
{
    let ghost pv = pieces_view(pieces@);
    let mut out: Vec<Column> = Vec::new();
    let mut i: usize = 0;
    proof {
        assert(pv.take(0) =~= Seq::<Seq<char>>::empty());
        assert(out@.map_values(|c: Column| c@) =~= Seq::<ColumnView>::empty());
    }
    while i < pieces.len()
        invariant
            i <= pieces@.len(),
            pv == pieces_view(pieces@),
            spec_columns(pv.take(i as int)) == Some(out@.map_values(|c: Column| c@)),
        decreases pieces.len() - i,
    {
        proof {
            assert(pv.take(i + 1).drop_last() =~= pv.take(i as int));
        }
        match column_from(&pieces[i]) {
            Some(c) => {
                let ghost before = out@;
                out.push(c);
                proof {
                    assert(out@.map_values(|c: Column| c@) =~= before.map_values(|c: Column| c@).push(c@));
                }
            },
            None => {
                proof {
                    lemma_columns_prefix(pv, i as int + 1);
                }
                return None;
            },
        }
        i = i + 1;
    }
    proof {
        assert(pv.take(i as int) =~= pv);
    }
    Some(out)
}

proof fn lemma_columns_prefix(pv: Seq<Seq<char>>, k: int)
    requires
        0 <= k <= pv.len(),
        spec_columns(pv.take(k)) is None,
    ensures
        spec_columns(pv) is None,
    decreases pv.len() - k,
{
    if k < pv.len() {
        assert(pv.take(k + 1).drop_last() =~= pv.take(k));
        lemma_columns_prefix(pv, k + 1);
    } else {
        assert(pv.take(k) =~= pv);
    }
}



// ---------------------------------------------------------------------------
// Statements
//
// Each statement is read from the start of the trimmed text `s`.

/// Where the condition starts when `\s+WHERE\s+` follows at `e`.
pub open spec fn where_start(s: Seq<char>, e: int) -> Option<int> {
    if 0 <= e < s.len() && is_space(s[e]) {
        match after_kw_spaces(s, skip_space(s, e), "WHERE"@) {
            Some(v) => if v < s.len() { Some(v) } else { None },
            None => None,
        }
    } else {
        None
    }
}

/// The WHERE condition after `e`, up to the end of its line.
pub open spec fn where_text(s: Seq<char>, e: int) -> Option<Seq<char>> {
    match where_start(s, e) {
        Some(v) => Some(s.subrange(v, find_char(s, '\n', v))),
        None => None,
    }
}

/// An optional WHERE clause: `None` when the condition is refused,
/// `Some(None)` when there is no WHERE clause.
pub open spec fn spec_where_opt(t: Option<Seq<char>>) -> Option<Option<Seq<ConditionView>>> {
    match t {
        None => Some(None),
        Some(c) => match spec_parse_where(c) {
            Some(w) => Some(Some(w)),
            None => None,
        },
    }
}

/// `DROP TABLE name`.
pub open spec fn spec_drop(s: Seq<char>) -> Option<StatementView> {
    match after_kw_spaces(s, 0, "DROP"@) {
        Some(a) => match after_kw_spaces(s, a, "TABLE"@) {
            Some(b) => if word_end(s, b) > b {
                Some(StatementView::DropTable { name: s.subrange(b, word_end(s, b)) })
            } else {
                None
            },
            None => None,
        },
        None => None,
    }
}

/// `DELETE FROM name [WHERE condition]`.
pub open spec fn spec_delete(s: Seq<char>) -> Option<StatementView> {
    match after_kw_spaces(s, 0, "DELETE"@) {
        Some(a) => match after_kw_spaces(s, a, "FROM"@) {
            Some(b) => {
                let e = word_end(s, b);
                if e > b {
                    match spec_where_opt(where_text(s, e)) {
                        Some(w) => Some(StatementView::Delete { table: s.subrange(b, e), where_clause: w }),
                        None => None,
                    }
                } else {
                    None
                }
            },
            None => None,
        },
        None => None,
    }
}

/// Where the table name starts when `\s+FROM\s+name` follows at `q`.
pub open spec fn from_at(s: Seq<char>, q: int) -> Option<int> {
    if 0 <= q < s.len() && is_space(s[q]) {
        match after_kw_spaces(s, skip_space(s, q), "FROM"@) {
            Some(b) => if word_end(s, b) > b { Some(b) } else { None },
            None => None,
        }
    } else {
        None
    }
}

/// The first `q` in `q0..=lim` at which `from_at` holds, with the start of
/// the table name.
pub open spec fn first_from(s: Seq<char>, q: int, lim: int) -> Option<(int, int)>
    decreases lim + 1 - q,
{
    if q > lim {
        None
    } else {
        match from_at(s, q) {
            Some(b) => Some((q, b)),
            None => first_from(s, q + 1, lim),
        }
    }
}

/// `SELECT columns FROM name [WHERE condition]`: the column list is the
/// shortest text on the first line that `FROM name` follows.
pub open spec fn spec_select(s: Seq<char>) -> Option<StatementView> {
    match after_kw_spaces(s, 0, "SELECT"@) {
        Some(a) => match first_from(s, a + 1, find_char(s, '\n', a)) {
            Some((q, b)) => {
                let e = word_end(s, b);
                match spec_where_opt(where_text(s, e)) {
                    Some(w) => Some(
                        StatementView::Select {
                            table: s.subrange(b, e),
                            columns: name_list(s.subrange(a, q)),
                            where_clause: w,
                        },
                    ),
                    None => None,
                }
            },
            None => None,
        },
        None => None,
    }
}

/// How an UPDATE's assignments may end at `q`: before a WHERE clause that
/// runs to the end of the statement on one line, or at the end.
pub open spec fn update_tail(s: Seq<char>, q: int) -> Option<Option<Seq<char>>> {
    match where_start(s, q) {
        Some(v) => if find_char(s, '\n', v) == s.len() {
            Some(Some(s.subrange(v, s.len() as int)))
        } else if q == s.len() {
            Some(None)
        } else {
            None
        },
        None => if q == s.len() { Some(None) } else { None },
    }
}

/// The first `q` in `q0..=lim` at which the assignments may end.
pub open spec fn first_tail(s: Seq<char>, q: int, lim: int) -> Option<(int, Option<Seq<char>>)>
    decreases lim + 1 - q,
{
    if q > lim {
        None
    } else {
        match update_tail(s, q) {
            Some(t) => Some((q, t)),
            None => first_tail(s, q + 1, lim),
        }
    }
}

/// `UPDATE name SET assignments [WHERE condition]`.
pub open spec fn spec_update(s: Seq<char>) -> Option<StatementView> {
    match after_kw_spaces(s, 0, "UPDATE"@) {
        Some(a) => {
            let e = word_end(s, a);
            if e > a && e < s.len() && is_space(s[e]) {
                match after_kw_spaces(s, skip_space(s, e), "SET"@) {
                    Some(b) => match first_tail(s, b + 1, find_char(s, '\n', b)) {
                        Some((q, t)) => match spec_assignments(split(s.subrange(b, q), ',')) {
                            Some(m) => match spec_where_opt(t) {
                                Some(w) => Some(
                                    StatementView::Update {
                                        table: s.subrange(a, e),
                                        assignments: m,
                                        where_clause: w,
                                    },
                                ),
                                None => None,
                            },
                            None => None,
                        },
                        None => None,
                    },
                    None => None,
                }
            } else {
                None
            }
        },
        None => None,
    }
}

/// The text between `(` and the first `)` when the parenthesis opens at
/// `o`, with the index after the `)`.
pub open spec fn paren_group(s: Seq<char>, o: int) -> Option<(Seq<char>, int)> {
    if 0 <= o < s.len() && s[o] == '(' {
        let c = find_char(s, ')', o + 1);
        if c < s.len() && c > o + 1 { Some((s.subrange(o + 1, c), c + 1)) } else { None }
    } else {
        None
    }
}

/// `\s+VALUES\s*(values)` at `i`: the values text.
pub open spec fn values_group(s: Seq<char>, i: int) -> Option<Seq<char>> {
    if 0 <= i < s.len() && is_space(s[i]) {
        let k = skip_space(s, i);
        if has_keyword(s, k, "VALUES"@) {
            match paren_group(s, skip_space(s, k + 6)) {
                Some((g, _)) => Some(g),
                None => None,
            }
        } else {
            None
        }
    } else {
        None
    }
}

/// The column text (if any) and the values text of an INSERT whose table
/// name ends at `e`: with a column list when one fits, else without.
pub open spec fn insert_groups(s: Seq<char>, e: int) -> Option<(Option<Seq<char>>, Seq<char>)> {
    let with_columns = match paren_group(s, skip_space(s, e)) {
        Some((cols, after)) => match values_group(s, after) {
            Some(vals) => Some((Some(cols), vals)),
            None => None,
        },
        None => None,
    };
    match with_columns {
        Some(x) => Some(x),
        None => match values_group(s, e) {
            Some(vals) => Some((None, vals)),
            None => None,
        },
    }
}

/// `INSERT INTO name [(columns)] VALUES (values)`.
pub open spec fn spec_insert(s: Seq<char>) -> Option<StatementView> {
    match after_kw_spaces(s, 0, "INSERT"@) {
        Some(a) => match after_kw_spaces(s, a, "INTO"@) {
            Some(b) => {
                let e = word_end(s, b);
                if e > b {
                    match insert_groups(s, e) {
                        Some((cols, vals)) => match spec_values(split(vals, ',')) {
                            Some(vs) => Some(
                                StatementView::Insert {
                                    table: s.subrange(b, e),
                                    columns: match cols {
                                        Some(c) => Some(split(c, ',').map_values(|p: Seq<char>| trim(p))),
                                        None => None,
                                    },
                                    values: vs,
                                },
                            ),
                            None => None,
                        },
                        None => None,
                    }
                } else {
                    None
                }
            },
            None => None,
        },
        None => None,
    }
}

/// The last `c` in `s[lo..hi]`.
pub open spec fn last_char(s: Seq<char>, c: char, lo: int, hi: int) -> Option<int>
    decreases hi - lo,
{
    if hi <= lo {
        None
    } else if s[hi - 1] == c {
        Some(hi - 1)
    } else {
        last_char(s, c, lo, hi - 1)
    }
}

/// `CREATE TABLE name (definitions)`: the definitions run to the last `)`
/// on the line of the `(`.
pub open spec fn spec_create(s: Seq<char>) -> Option<StatementView> {
    match after_kw_spaces(s, 0, "CREATE"@) {
        Some(a) => match after_kw_spaces(s, a, "TABLE"@) {
            Some(b) => {
                let e = word_end(s, b);
                let o = skip_space(s, e);
                if e > b && o < s.len() && s[o] == '(' {
                    match last_char(s, ')', o + 2, find_char(s, '\n', o + 1)) {
                        Some(r) => match spec_columns(split(s.subrange(o + 1, r), ',')) {
                            Some(cs) => Some(StatementView::CreateTable { name: s.subrange(b, e), columns: cs }),
                            None => None,
                        },
                        None => None,
                    }
                } else {
                    None
                }
            },
            None => None,
        },
        None => None,
    }
}

/// The statement that the trimmed text `s` holds, given `u`, its upper-case
/// form, which decides the kind of statement.
pub open spec fn spec_parse_upper(s: Seq<char>, u: Seq<char>) -> Option<StatementView> {
    if starts_with(u, "CREATE TABLE"@) {
        spec_create(s)
    } else if starts_with(u, "DROP TABLE"@) {
        spec_drop(s)
    } else if starts_with(u, "INSERT INTO"@) {
        spec_insert(s)
    } else if starts_with(u, "SELECT"@) {
        spec_select(s)
    } else if starts_with(u, "UPDATE"@) {
        spec_update(s)
    } else if starts_with(u, "DELETE FROM"@) {
        spec_delete(s)
    } else {
        None
    }
}

/// The statement that `sql` holds; `None` when it is refused.
pub open spec fn spec_parse(sql: Seq<char>) -> Option<StatementView> {
    spec_parse_upper(trim(sql), spec_to_uppercase(trim(sql)))
}

/// The outcome that the grammar gives, as a parse result.
pub open spec fn parsed(r: Result<Statement>, expected: Option<StatementView>) -> bool {
    match r {
        Ok(st) => expected == Some(st@),
        Err(e) => expected is None && e is ParseError,
    }
}

fn refused() -> (r: Result<Statement>)
    ensures
        r matches Err(e) && e is ParseError,
{
    Err(VelociError::ParseError("invalid statement syntax".to_string()))
}

fn where_start_at(s: &Vec<char>, e: usize) -> (r: Option<usize>)
    requires
        e <= s@.len(),
    ensures
        same_pos(r, where_start(s@, e as int)),
        r matches Some(v) ==> v < s@.len(),
{
    if e < s.len() && space(s[e]) {
        let k = skip_spaces(s, e);
        match kw_spaces(s, k, "WHERE") {
            Some(v) => if v < s.len() { Some(v) } else { None },
            None => None,
        }
    } else {
        None
    }
}

fn where_clause_at(s: &Vec<char>, e: usize) -> (r: Option<Option<WhereClause>>)
    requires
        e <= s@.len(),
    ensures
        match r {
            Some(w) => spec_where_opt(where_text(s@, e as int)) == Some(opt_where_view(w)),
            None => spec_where_opt(where_text(s@, e as int)) is None,
        },
{
    match where_start_at(s, e) {
        Some(v) => {
            let end = find_char_from(s, '\n', v);
            let c = sub_chars(s, v, end);
            match parse_where(&c) {
                Some(w) => Some(Some(w)),
                None => None,
            }
        },
        None => Some(None),
    }
}

fn from_at_exec(s: &Vec<char>, q: usize) -> (r: Option<usize>)
    requires
        q <= s@.len(),
    ensures
        same_pos(r, from_at(s@, q as int)),
        r matches Some(b) ==> b < word_end(s@, b as int) <= s@.len(),
{
    if q < s.len() && space(s[q]) {
        let k = skip_spaces(s, q);
        match kw_spaces(s, k, "FROM") {
            Some(b) => {
                let e = word_end_from(s, b);
                if e > b { Some(b) } else { None }
            },
            None => None,
        }
    } else {
        None
    }
}

fn tail_at(s: &Vec<char>, q: usize) -> (r: Option<Option<Vec<char>>>)
    requires
        q <= s@.len(),
    ensures
        match r {
            Some(Some(c)) => update_tail(s@, q as int) == Some(Some(c@)),
            Some(None) => update_tail(s@, q as int) == Some(None::<Seq<char>>),
            None => update_tail(s@, q as int) is None,
        },
{
    match where_start_at(s, q) {
        Some(v) => {
            if find_char_from(s, '\n', v) == s.len() {
                return Some(Some(sub_chars(s, v, s.len())));
            }
        },
        None => {},
    }
    if q == s.len() { Some(None) } else { None }
}

fn paren_group_at(s: &Vec<char>, o: usize) -> (r: Option<(Vec<char>, usize)>)
    requires
        o <= s@.len(),
    ensures
        match r {
            Some((g, after)) => paren_group(s@, o as int) == Some((g@, after as int)) && after <= s@.len(),
            None => paren_group(s@, o as int) is None,
        },
{
    if o < s.len() && s[o] == '(' {
        let c = find_char_from(s, ')', o + 1);
        if c < s.len() && c > o + 1 {
            Some((sub_chars(s, o + 1, c), c + 1))
        } else {
            None
        }
    } else {
        None
    }
}

fn values_group_at(s: &Vec<char>, i: usize) -> (r: Option<Vec<char>>)
    requires
        i <= s@.len(),
    ensures
        match r {
            Some(g) => values_group(s@, i as int) == Some(g@),
            None => values_group(s@, i as int) is None,
        },
{
    proof {
        reveal_strlit("VALUES");
    }
    if i < s.len() && space(s[i]) {
        let k = skip_spaces(s, i);
        if keyword_at(s, k, "VALUES") {
            let o = skip_spaces(s, k + 6);
            match paren_group_at(s, o) {
                Some((g, _)) => Some(g),
                None => None,
            }
        } else {
            None
        }
    } else {
        None
    }
}

/// Whether the characters `u` start with the literal `p`.
fn prefix_is(u: &Vec<char>, p: &str) -> (b: bool)
    ensures
        b == starts_with(u@, p@),
{
    let pc = chars_of(p);
    if pc.len() > u.len() {
        return false;
    }
    let pre = sub_chars(u, 0, pc.len());
    let r = chars_eq(&pre, p);
    r
}

fn last_char_in(s: &Vec<char>, c: char, lo: usize, hi: usize) -> (r: Option<usize>)
    requires
        hi <= s@.len(),
    ensures
        same_pos(r, last_char(s@, c, lo as int, hi as int)),
        r matches Some(x) ==> lo <= x < hi,
{
    let mut h = hi;
    while h > lo
        invariant
            h <= hi <= s@.len(),
            last_char(s@, c, lo as int, hi as int) == last_char(s@, c, lo as int, h as int),
        decreases h,
    {
        if s[h - 1] == c {
            return Some(h - 1);
        }
        h = h - 1;
    }
    None
}

impl Parser {
    /// Creates a parser.
    pub fn new() -> (p: Parser) {
        Parser {}
    }

    /// Parses one SQL statement.
    pub fn parse(&self, sql: &str) -> (r: Result<Statement>)
        ensures
            parsed(r, spec_parse(sql@)),
    {
        let chars = chars_of(sql);
        let s = trim_chars(&chars);
        let text = string_of(s.as_slice());
        let upper = chars_of(to_uppercase(text.as_str()).as_str());
        self.parse_classified(&s, &upper)
    }

    /// Parses the trimmed statement `s`, whose upper-case form `upper`
    /// decides its kind.
    pub fn parse_classified(&self, s: &Vec<char>, upper: &Vec<char>) -> (r: Result<Statement>)
        ensures
            parsed(r, spec_parse_upper(s@, upper@)),
    {
        if prefix_is(upper, "CREATE TABLE") {
            self.parse_create_table(s)
        } else if prefix_is(upper, "DROP TABLE") {
            self.parse_drop_table(s)
        } else if prefix_is(upper, "INSERT INTO") {
            self.parse_insert(s)
        } else if prefix_is(upper, "SELECT") {
            self.parse_select(s)
        } else if prefix_is(upper, "UPDATE") {
            self.parse_update(s)
        } else if prefix_is(upper, "DELETE FROM") {
            self.parse_delete(s)
        } else {
            refused()
        }
    }

    /// Parses `DROP TABLE name`.
    pub fn parse_drop_table(&self, s: &Vec<char>) -> (r: Result<Statement>)
        ensures
            parsed(r, spec_drop(s@)),
    {
        let a = match kw_spaces(s, 0, "DROP") {
            Some(a) => a,
            None => return refused(),
        };
        let b = match kw_spaces(s, a, "TABLE") {
            Some(b) => b,
            None => return refused(),
        };
        let e = word_end_from(s, b);
        if e == b {
            return refused();
        }
        Ok(Statement::DropTable { name: string_of(sub_chars(s, b, e).as_slice()) })
    }

    /// Parses `DELETE FROM name [WHERE condition]`.
    pub fn parse_delete(&self, s: &Vec<char>) -> (r: Result<Statement>)
        ensures
            parsed(r, spec_delete(s@)),
    {
        let a = match kw_spaces(s, 0, "DELETE") {
            Some(a) => a,
            None => return refused(),
        };
        let b = match kw_spaces(s, a, "FROM") {
            Some(b) => b,
            None => return refused(),
        };
        let e = word_end_from(s, b);
        if e == b {
            return refused();
        }
        match where_clause_at(s, e) {
            Some(w) => Ok(Statement::Delete { table: string_of(sub_chars(s, b, e).as_slice()), where_clause: w }),
            None => refused(),
        }
    }

    /// Parses `SELECT columns FROM name [WHERE condition]`.
    pub fn parse_select(&self, s: &Vec<char>) -> (r: Result<Statement>)
        ensures
            parsed(r, spec_select(s@)),
    {
        let a = match kw_spaces(s, 0, "SELECT") {
            Some(a) => a,
            None => return refused(),
        };
        if a >= s.len() {
            return refused();
        }
        let lim = find_char_from(s, '\n', a);
        let mut q = a + 1;
        let mut found: Option<(usize, usize)> = None;
        while q < lim
            invariant_except_break
                found is None,
            invariant
                a < q,
                lim <= s@.len(),
                lim == find_char(s@, '\n', a as int),
                q <= lim || q == a + 1,
                first_from(s@, a + 1, lim as int) == first_from(s@, q as int, lim as int),
            ensures
                a < q,
                q <= lim || q == a + 1,
                first_from(s@, a + 1, lim as int) == first_from(s@, q as int, lim as int),
                match found {
                    Some((fq, fb)) => first_from(s@, a + 1, lim as int) == Some((fq as int, fb as int))
                        && fb < word_end(s@, fb as int) <= s@.len() && a < fq <= lim,
                    None => q >= lim,
                },
            decreases lim - q,
        {
            match from_at_exec(s, q) {
                Some(b) => {
                    found = Some((q, b));
                    break;
                },
                None => {},
            }
            q = q + 1;
        }
        if found.is_none() && q == lim {
            match from_at_exec(s, q) {
                Some(b) => {
                    found = Some((q, b));
                },
                None => {
                    assert(first_from(s@, q + 1, lim as int) is None);
                },
            }
        }
        let (q, b) = match found {
            Some(x) => x,
            None => return refused(),
        };
        let e = word_end_from(s, b);
        match where_clause_at(s, e) {
            Some(w) => {
                let group = sub_chars(s, a, q);
                let columns = names_from(&group);
                Ok(Statement::Select { table: string_of(sub_chars(s, b, e).as_slice()), columns, where_clause: w })
            },
            None => refused(),
        }
    }

    /// Parses `UPDATE name SET assignments [WHERE condition]`.
    pub fn parse_update(&self, s: &Vec<char>) -> (r: Result<Statement>)
        ensures
            parsed(r, spec_update(s@)),
    {
        let a = match kw_spaces(s, 0, "UPDATE") {
            Some(a) => a,
            None => return refused(),
        };
        let e = word_end_from(s, a);
        if !(e > a && e < s.len() && space(s[e])) {
            return refused();
        }
        let k = skip_spaces(s, e);
        let b = match kw_spaces(s, k, "SET") {
            Some(b) => b,
            None => return refused(),
        };
        if b >= s.len() {
            return refused();
        }
        let lim = find_char_from(s, '\n', b);
        let mut q = b + 1;
        let mut found: Option<(usize, Option<Vec<char>>)> = None;
        while q < lim
            invariant_except_break
                found is None,
            invariant
                b < q,
                lim <= s@.len(),
                lim == find_char(s@, '\n', b as int),
                q <= lim || q == b + 1,
                first_tail(s@, b + 1, lim as int) == first_tail(s@, q as int, lim as int),
            ensures
                b < q,
                q <= lim || q == b + 1,
                first_tail(s@, b + 1, lim as int) == first_tail(s@, q as int, lim as int),
                match found {
                    Some((fq, Some(c))) => first_tail(s@, b + 1, lim as int) == Some((fq as int, Some(c@)))
                        && b < fq <= lim,
                    Some((fq, None)) => first_tail(s@, b + 1, lim as int) == Some((fq as int, None::<Seq<char>>))
                        && b < fq <= lim,
                    None => q >= lim,
                },
            decreases lim - q,
        {
            match tail_at(s, q) {
                Some(t) => {
                    found = Some((q, t));
                    break;
                },
                None => {},
            }
            q = q + 1;
        }
        if found.is_none() && q == lim {
            match tail_at(s, q) {
                Some(t) => {
                    found = Some((q, t));
                },
                None => {
                    assert(first_tail(s@, q + 1, lim as int) is None);
                },
            }
        }
        let (q, tail) = match found {
            Some(x) => x,
            None => return refused(),
        };
        let group = sub_chars(s, b, q);
        let pieces = split_chars(&group, ',');
        let assignments = match assignments_from(&pieces) {
            Some(m) => m,
            None => return refused(),
        };
        let where_clause = match tail {
            Some(c) => match parse_where(&c) {
                Some(w) => Some(w),
                None => return refused(),
            },
            None => None,
        };
        Ok(Statement::Update { table: string_of(sub_chars(s, a, e).as_slice()), assignments, where_clause })
    }

    /// Parses `INSERT INTO name [(columns)] VALUES (values)`.
    pub fn parse_insert(&self, s: &Vec<char>) -> (r: Result<Statement>)
        ensures
            parsed(r, spec_insert(s@)),
    {
        let a = match kw_spaces(s, 0, "INSERT") {
            Some(a) => a,
            None => return refused(),
        };
        let b = match kw_spaces(s, a, "INTO") {
            Some(b) => b,
            None => return refused(),
        };
        let e = word_end_from(s, b);
        if e == b {
            return refused();
        }
        let o = skip_spaces(s, e);
        let mut groups: Option<(Option<Vec<char>>, Vec<char>)> = None;
        match paren_group_at(s, o) {
            Some((cols, after)) => match values_group_at(s, after) {
                Some(vals) => {
                    groups = Some((Some(cols), vals));
                },
                None => {},
            },
            None => {},
        }
        if groups.is_none() {
            match values_group_at(s, e) {
                Some(vals) => {
                    groups = Some((None, vals));
                },
                None => {},
            }
        }
        let (cols, vals) = match groups {
            Some(x) => x,
            None => return refused(),
        };
        let pieces = split_chars(&vals, ',');
        let values = match values_from(&pieces) {
            Some(vs) => vs,
            None => return refused(),
        };
        let columns = match cols {
            Some(c) => {
                let pieces = split_chars(&c, ',');
                let mut names: Vec<String> = Vec::new();
                let mut i: usize = 0;
                let ghost pv = pieces_view(pieces@);
                while i < pieces.len()
                    invariant
                        i <= pieces@.len(),
                        pv == pieces_view(pieces@),
                        strings_view(names@) == pv.take(i as int).map_values(|p: Seq<char>| trim(p)),
                    decreases pieces.len() - i,
                {
                    let name = string_of(trim_chars(&pieces[i]).as_slice());
                    let ghost before = names@;
                    names.push(name);
                    proof {
                        assert(strings_view(names@) =~= strings_view(before).push(name@));
                        assert(pv.take(i + 1).map_values(|p: Seq<char>| trim(p)) =~= pv.take(i as int).map_values(
                            |p: Seq<char>| trim(p),
                        ).push(trim(pv[i as int])));
                    }
                    i = i + 1;
                }
                proof {
                    assert(pv.take(i as int) =~= pv);
                }
                Some(names)
            },
            None => None,
        };
        Ok(Statement::Insert { table: string_of(sub_chars(s, b, e).as_slice()), columns, values })
    }

    /// Parses `CREATE TABLE name (definitions)`.
    pub fn parse_create_table(&self, s: &Vec<char>) -> (r: Result<Statement>)
        ensures
            parsed(r, spec_create(s@)),
    {
        let a = match kw_spaces(s, 0, "CREATE") {
            Some(a) => a,
            None => return refused(),
        };
        let b = match kw_spaces(s, a, "TABLE") {
            Some(b) => b,
            None => return refused(),
        };
        let e = word_end_from(s, b);
        let o = skip_spaces(s, e);
        if !(e > b && o < s.len() && s[o] == '(') {
            return refused();
        }
        let line_end = find_char_from(s, '\n', o + 1);
        if line_end <= o + 1 {
            return refused();
        }
        let r = match last_char_in(s, ')', o + 2, line_end) {
            Some(r) => r,
            None => return refused(),
        };
        let body = sub_chars(s, o + 1, r);
        let pieces = split_chars(&body, ',');
        match columns_from(&pieces) {
            Some(columns) => Ok(Statement::CreateTable { name: string_of(sub_chars(s, b, e).as_slice()), columns }),
            None => refused(),
        }
    }
}



// ---------------------------------------------------------------------------
// Operators

/// The operator that its SQL spelling names.
pub open spec fn spec_operator(s: Seq<char>) -> Option<Operator> {
    if s == "="@ {
        Some(Operator::Equal)
    } else if s == "!="@ || s == "<>"@ {
        Some(Operator::NotEqual)
    } else if s == ">"@ {
        Some(Operator::GreaterThan)
    } else if s == "<"@ {
        Some(Operator::LessThan)
    } else if s == ">="@ {
        Some(Operator::GreaterThanOrEqual)
    } else if s == "<="@ {
        Some(Operator::LessThanOrEqual)
    } else if s == "LIKE"@ {
        Some(Operator::Like)
    } else {
        None
    }
}

/// A LIKE pattern as a regular expression body: `%` becomes `.*` and `_`
/// becomes `.`; other characters stay.
pub open spec fn like_body(p: Seq<char>) -> Seq<char>
    decreases p.len(),
{
    if p.len() == 0 {
        Seq::empty()
    } else {
        let c = p.last();
        let tail = if c == '%' { seq!['.', '*'] } else if c == '_' { seq!['.'] } else { seq![c] };
        like_body(p.drop_last()) + tail
    }
}

/// The regular expression that a LIKE pattern stands for, anchored at both
/// ends.
pub open spec fn like_regex(p: Seq<char>) -> Seq<char> {
    seq!['^'] + like_body(p) + seq!['$']
}

/// What a comparison decides: a truth value, a LIKE match of a text against
/// a regular expression, or a type mismatch.
pub enum Comparison {
    Decided(bool),
    Like(Seq<char>, Seq<char>),
    Mismatch,
}

/// The comparison `left op right`: integers compare by value, texts by
/// `=` and `!=`, LIKE matches texts, NULL equals NULL and differs from
/// everything; other pairs are a type mismatch.
pub open spec fn spec_compare(op: Operator, l: ValueView, r: ValueView) -> Comparison {
    match (op, l, r) {
        (Operator::Equal, ValueView::Integer(a), ValueView::Integer(b)) => Comparison::Decided(a == b),
        (Operator::NotEqual, ValueView::Integer(a), ValueView::Integer(b)) => Comparison::Decided(a != b),
        (Operator::GreaterThan, ValueView::Integer(a), ValueView::Integer(b)) => Comparison::Decided(a > b),
        (Operator::LessThan, ValueView::Integer(a), ValueView::Integer(b)) => Comparison::Decided(a < b),
        (Operator::GreaterThanOrEqual, ValueView::Integer(a), ValueView::Integer(b)) => Comparison::Decided(a >= b),
        (Operator::LessThanOrEqual, ValueView::Integer(a), ValueView::Integer(b)) => Comparison::Decided(a <= b),
        (Operator::Equal, ValueView::Text(a), ValueView::Text(b)) => Comparison::Decided(a == b),
        (Operator::NotEqual, ValueView::Text(a), ValueView::Text(b)) => Comparison::Decided(a != b),
        (Operator::Like, ValueView::Text(a), ValueView::Text(p)) => Comparison::Like(a, like_regex(p)),
        (Operator::Equal, ValueView::Null, ValueView::Null) => Comparison::Decided(true),
        (Operator::NotEqual, ValueView::Null, _) => Comparison::Decided(true),
        (Operator::NotEqual, _, ValueView::Null) => Comparison::Decided(true),
        _ => Comparison::Mismatch,
    }
}

/// The comparisons mean the relations they name: on integers each operator
/// decides its relation; texts are equal exactly when they are the same
/// characters and are not ordered; NULL equals NULL, and `!=` holds between
/// NULL and anything; LIKE matches a text against the pattern's regular
/// expression; mixed types are a mismatch.
pub proof fn law_comparisons_mean_their_relations(a: i64, b: i64, s: Seq<char>, t: Seq<char>, v: ValueView)
    ensures
        spec_compare(Operator::Equal, ValueView::Integer(a), ValueView::Integer(b)) == Comparison::Decided(a == b),
        spec_compare(Operator::NotEqual, ValueView::Integer(a), ValueView::Integer(b)) == Comparison::Decided(a != b),
        spec_compare(Operator::LessThan, ValueView::Integer(a), ValueView::Integer(b)) == Comparison::Decided(a < b),
        spec_compare(Operator::LessThanOrEqual, ValueView::Integer(a), ValueView::Integer(b)) == Comparison::Decided(
            a < b || a == b,
        ),
        spec_compare(Operator::GreaterThan, ValueView::Integer(a), ValueView::Integer(b)) == Comparison::Decided(b < a),
        spec_compare(Operator::GreaterThanOrEqual, ValueView::Integer(a), ValueView::Integer(b)) == Comparison::Decided(
            b < a || a == b,
        ),
        spec_compare(Operator::Equal, ValueView::Text(s), ValueView::Text(t)) == Comparison::Decided(s == t),
        spec_compare(Operator::NotEqual, ValueView::Text(s), ValueView::Text(t)) == Comparison::Decided(s != t),
        spec_compare(Operator::Equal, ValueView::Null, ValueView::Null) == Comparison::Decided(true),
        spec_compare(Operator::NotEqual, ValueView::Null, v) == Comparison::Decided(true),
        spec_compare(Operator::NotEqual, v, ValueView::Null) == Comparison::Decided(true),
        spec_compare(Operator::LessThan, ValueView::Text(s), ValueView::Text(t)) == Comparison::Mismatch,
        spec_compare(Operator::LessThanOrEqual, ValueView::Text(s), ValueView::Text(t)) == Comparison::Mismatch,
        spec_compare(Operator::GreaterThan, ValueView::Text(s), ValueView::Text(t)) == Comparison::Mismatch,
        spec_compare(Operator::GreaterThanOrEqual, ValueView::Text(s), ValueView::Text(t)) == Comparison::Mismatch,
        spec_compare(Operator::Equal, ValueView::Integer(a), ValueView::Text(t)) == Comparison::Mismatch,
        spec_compare(Operator::Equal, ValueView::Text(s), ValueView::Integer(b)) == Comparison::Mismatch,
        spec_compare(Operator::LessThan, ValueView::Integer(a), ValueView::Text(t)) == Comparison::Mismatch,
        spec_compare(Operator::Like, ValueView::Integer(a), ValueView::Text(t)) == Comparison::Mismatch,
        spec_compare(Operator::Equal, ValueView::Null, ValueView::Integer(b)) == Comparison::Mismatch,
        spec_compare(Operator::LessThan, ValueView::Null, ValueView::Null) == Comparison::Mismatch,
        spec_compare(Operator::Like, ValueView::Text(s), ValueView::Text(t)) == Comparison::Like(s, like_regex(t)),
{
}

/// A LIKE pattern reads as a regular expression piece by piece: the
/// translation of two pieces joined is the two translations joined; `%`
/// stands for any run of characters (`.*`), `_` for any one character
/// (`.`), and every other character for itself; the whole is anchored at
/// both ends.
pub proof fn law_like_translation(p: Seq<char>, q: Seq<char>, c: char)
    ensures
        like_body(p + q) == like_body(p) + like_body(q),
        like_body(seq!['%']) == seq!['.', '*'],
        like_body(seq!['_']) == seq!['.'],
        c != '%' && c != '_' ==> like_body(seq![c]) == seq![c],
        like_body(Seq::<char>::empty()) == Seq::<char>::empty(),
        like_regex(p) == seq!['^'] + like_body(p) + seq!['$'],
    decreases q.len(),
{
    reveal_with_fuel(like_body, 2);
    assert(like_body(Seq::<char>::empty()) == Seq::<char>::empty());
    assert(seq!['%'].drop_last() =~= Seq::<char>::empty());
    assert(seq!['%'].last() == '%');
    assert(seq!['_'].last() == '_');
    assert(seq![c].last() == c);
    assert(seq!['_'].drop_last() =~= Seq::<char>::empty());
    assert(seq![c].drop_last() =~= Seq::<char>::empty());
    assert(like_body(seq!['%']) =~= seq!['.', '*']);
    assert(like_body(seq!['_']) =~= seq!['.']);
    if c != '%' && c != '_' {
        assert(like_body(seq![c]) =~= seq![c]);
    }
    if q.len() == 0 {
        assert(p + q =~= p);
        assert(like_body(p) + like_body(q) =~= like_body(p));
    } else {
        law_like_translation(p, q.drop_last(), c);
        assert((p + q).drop_last() =~= p + q.drop_last());
        assert((p + q).last() == q.last());
        let l = q.last();
        let tail = if l == '%' { seq!['.', '*'] } else if l == '_' { seq!['.'] } else { seq![l] };
        assert(like_body(p + q) == like_body(p + q.drop_last()) + tail);
        assert(like_body(q) == like_body(q.drop_last()) + tail);
        assert(like_body(p + q) =~= like_body(p) + like_body(q));
    }
}

/// What `Regex::new(pattern)` and then `is_match(text)` give: `None` when
/// the pattern does not compile.
pub uninterp spec fn regex_outcome(pattern: Seq<char>, text: Seq<char>) -> Option<bool>;

/// Compiles `pattern` with `regex::Regex::new` and, when that succeeds,
/// tests `text` with `Regex::is_match`. The result is the name
/// `regex_outcome` of the two strings; whether a pattern compiles and what
/// it matches is the regex crate's and is not stated here.
#[verifier::external_body]
pub(crate) fn regex_match(pattern: &str, text: &str) -> (r: std::result::Result<bool, regex::Error>)
    ensures
        match r {
            Ok(b) => regex_outcome(pattern@, text@) == Some(b),
            Err(_) => regex_outcome(pattern@, text@) is None,
        },
{
    match regex::Regex::new(pattern) {
        Ok(re) => Ok(re.is_match(text)),
        Err(e) => Err(e),
    }
}

/// The outside error type of the regex crate.
#[verifier::external_type_specification]
#[verifier::external_body]
pub struct ExRegexError(regex::Error);

/// The message of a `regex::Error` (its `Display` text, not specified here).
#[verifier::external_body]
fn regex_error_text(e: &regex::Error) -> String {
    e.to_string()
}

/// The characters of `a` followed by those of `b`.
pub fn concat(a: &str, b: &str) -> (s: String)
    ensures
        s@ == a@ + b@,
{
    let mut v = chars_of(a);
    let w = chars_of(b);
    let mut i: usize = 0;
    while i < w.len()
        invariant
            i <= w@.len(),
            w@ == b@,
            v@ == a@ + b@.subrange(0, i as int),
        decreases w.len() - i,
    {
        v.push(w[i]);
        i = i + 1;
    }
    assert(b@.subrange(0, i as int) =~= b@);
    string_of(v.as_slice())
}

fn like_pattern(p: &str) -> (r: String)
    ensures
        r@ == like_regex(p@),
{
    let pc = chars_of(p);
    let mut out: Vec<char> = Vec::new();
    out.push('^');
    let mut i: usize = 0;
    while i < pc.len()
        invariant
            i <= pc@.len(),
            pc@ == p@,
            out@ == seq!['^'] + like_body(pc@.take(i as int)),
        decreases pc.len() - i,
    {
        let c = pc[i];
        proof {
            assert(pc@.take(i + 1).drop_last() =~= pc@.take(i as int));
            assert(pc@.take(i + 1).last() == c);
        }
        let ghost before = out@;
        if c == '%' {
            out.push('.');
            out.push('*');
            assert(out@ =~= before + seq!['.', '*']);
        } else if c == '_' {
            out.push('.');
            assert(out@ =~= before + seq!['.']);
        } else {
            out.push(c);
            assert(out@ =~= before + seq![c]);
        }
        i = i + 1;
    }
    out.push('$');
    proof {
        assert(pc@.take(i as int) =~= p@);
        assert(out@ =~= like_regex(p@));
    }
    string_of(out.as_slice())
}

fn mismatch(left: &Value, right: &Value) -> (r: Result<bool>)
    ensures
        r matches Err(e) && e is TypeMismatch,
{
    Err(VelociError::TypeMismatch { expected: debug_value(right), actual: debug_value(left) })
}

impl Operator {
    /// The operator that `s` spells: `=`, `!=`, `<>`, `>`, `<`, `>=`, `<=`
    /// or `LIKE`.
    pub fn from_str(s: &str) -> (r: Result<Operator>)
        ensures
            match r {
                Ok(op) => spec_operator(s@) == Some(op),
                Err(e) => spec_operator(s@) is None && e is ParseError,
            },
    {
        if str_eq(s, "=") {
            Ok(Operator::Equal)
        } else if str_eq(s, "!=") || str_eq(s, "<>") {
            Ok(Operator::NotEqual)
        } else if str_eq(s, ">") {
            Ok(Operator::GreaterThan)
        } else if str_eq(s, "<") {
            Ok(Operator::LessThan)
        } else if str_eq(s, ">=") {
            Ok(Operator::GreaterThanOrEqual)
        } else if str_eq(s, "<=") {
            Ok(Operator::LessThanOrEqual)
        } else if str_eq(s, "LIKE") {
            Ok(Operator::Like)
        } else {
            Err(VelociError::ParseError(concat("Unknown operator: ", s)))
        }
    }

    /// Evaluates `left op right`.
    pub fn evaluate(&self, left: &Value, right: &Value) -> (r: Result<bool>)
        ensures
            match spec_compare(*self, left@, right@) {
                Comparison::Decided(b) => r matches Ok(x) && x == b,
                Comparison::Like(text, re) => match regex_outcome(re, text) {
                    Some(b) => r matches Ok(x) && x == b,
                    None => r matches Err(e) && e is ParseError,
                },
                Comparison::Mismatch => r matches Err(e) && e is TypeMismatch,
            },
    {
        match (self, left, right) {
            (Operator::Equal, Value::Integer(a), Value::Integer(b)) => Ok(*a == *b),
            (Operator::NotEqual, Value::Integer(a), Value::Integer(b)) => Ok(*a != *b),
            (Operator::GreaterThan, Value::Integer(a), Value::Integer(b)) => Ok(*a > *b),
            (Operator::LessThan, Value::Integer(a), Value::Integer(b)) => Ok(*a < *b),
            (Operator::GreaterThanOrEqual, Value::Integer(a), Value::Integer(b)) => Ok(*a >= *b),
            (Operator::LessThanOrEqual, Value::Integer(a), Value::Integer(b)) => Ok(*a <= *b),
            (Operator::Equal, Value::Text(a), Value::Text(b)) => Ok(str_eq(a.as_str(), b.as_str())),
            (Operator::NotEqual, Value::Text(a), Value::Text(b)) => Ok(!str_eq(a.as_str(), b.as_str())),
            (Operator::Like, Value::Text(a), Value::Text(p)) => {
                let re = like_pattern(p.as_str());
                match regex_match(re.as_str(), a.as_str()) {
                    Ok(b) => Ok(b),
                    Err(e) => {
                        let msg = regex_error_text(&e);
                        Err(VelociError::ParseError(concat("Invalid LIKE pattern: ", msg.as_str())))
                    },
                }
            },
            (Operator::Equal, Value::Null, Value::Null) => Ok(true),
            (Operator::NotEqual, Value::Null, _) => Ok(true),
            (Operator::NotEqual, _, Value::Null) => Ok(true),
            _ => mismatch(left, right),
        }
    }
}

} // verus!
