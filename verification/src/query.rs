//! Query mini-grammar over tasks.
//!
//! ```text
//! expr    := or
//! or      := and ( OR and )*
//! and     := unary ( AND unary )*
//! unary   := NOT unary | "(" expr ")" | term
//! term    := field op value
//! op      := ":" | ">=" | ">" | "<=" | "<"
//! value   := bare-word | "quoted string"
//! ```
//!
//! Fields: `status`, `priority`, `effort`, `type`, `phase`, `tag`, `owner`,
//! `group`, `scope` (matches `touches`), `id`, `title` (substring,
//! case-insensitive), `depends` (has that id as dependency), `ready`
//! (true/false, from the dependency graph), `open` (true/false: status is not
//! terminal), and the dates `created`, `completed`, `cancelled`. Ordering
//! operators work on `priority`, `effort` (their enum order) and the date
//! fields; everything else is `:` only. `AND`/`OR`/`NOT` are
//! case-insensitive.
//!
//! The lexer, the parser and the evaluator are each specified by a recursive
//! spec function over characters, tokens and query trees; the executable
//! code is proved to compute exactly those.

use vstd::prelude::*;
use vstd::slice::{slice_subrange, slice_to_vec};

use crate::date::{Date, date_parts, day_number, spec_parse_ymd, valid_ymd};
use crate::due::lemma_day_number_order;
use crate::task::{ascii_lower, spec_to_lowercase, to_lowercase};
use crate::taskmd::model::{
    Effort, Priority, Status, Task, TaskType, effort_named, effort_rank, priority_named,
    priority_rank, status_named, status_text, task_type_named, task_type_text,
};
use crate::text::{
    chars_of, contains_str, is_whitespace, is_ws, lemma_trim_empty, opt_text, str_eq, string_of,
    texts, trim,
    trim_char, trim_char_chars,
};

verus! {

// ---------------------------------------------------------------------------
// Syntax

/// A parsed query, ready to evaluate against tasks.
#[derive(Debug, PartialEq)]
pub enum Expr {
    And(Box<Expr>, Box<Expr>),
    Or(Box<Expr>, Box<Expr>),
    Not(Box<Expr>),
    Term(Term),
}

/// One `field op value` comparison.
#[derive(Debug, Clone, PartialEq)]
pub struct Term {
    pub field: Field,
    pub op: Op,
    pub value: String,
}

/// The fields a term can test.
#[derive(Debug, Clone, Copy, PartialEq, Eq, Structural)]
pub enum Field {
    Status,
    Priority,
    Effort,
    Type,
    Phase,
    Tag,
    Owner,
    Group,
    Scope,
    Id,
    Title,
    Depends,
    Ready,
    Open,
    Created,
    Completed,
    Cancelled,
}

/// The comparison of a term.
#[derive(Debug, Clone, Copy, PartialEq, Eq, Structural)]
pub enum Op {
    Eq,
    Ge,
    Gt,
    Le,
    Lt,
}

/// Why a query was rejected.
#[derive(Debug, Clone, PartialEq)]
pub enum QueryError {
    /// A word opens a `"` it never closes (the word).
    UnterminatedQuote(String),
    /// The text before the operator names no field.
    UnknownField(String),
    /// Nothing follows the operator (the whole term).
    EmptyValue(String),
    /// An ordering operator on a field that only takes `:` (the field text).
    OrderingUnsupported(String),
    InvalidStatus(String),
    InvalidPriority(String),
    InvalidEffort(String),
    InvalidType(String),
    /// `ready` takes `true` or `false`.
    ReadyNotBool,
    /// `open` takes `true` or `false`.
    OpenNotBool,
    /// A date field's value is not `YYYY-MM-DD`.
    InvalidDate(String),
    /// A word is neither a keyword nor `field op value`.
    NotATerm(String),
    /// The query holds no token.
    EmptyQuery,
    /// An opening parenthesis is never closed.
    MissingClose,
    /// Tokens are left over after a complete expression.
    TrailingInput,
    /// A term, `NOT` or `(` was expected.
    ExpectedTerm,
}

/// The mathematical form of a query.
pub enum QueryV {
    And(Box<QueryV>, Box<QueryV>),
    Or(Box<QueryV>, Box<QueryV>),
    Not(Box<QueryV>),
    Term(Field, Op, Seq<char>),
}

/// The mathematical form of a query error.
pub enum QueryErrV {
    UnterminatedQuote(Seq<char>),
    UnknownField(Seq<char>),
    EmptyValue(Seq<char>),
    OrderingUnsupported(Seq<char>),
    InvalidStatus(Seq<char>),
    InvalidPriority(Seq<char>),
    InvalidEffort(Seq<char>),
    InvalidType(Seq<char>),
    ReadyNotBool,
    OpenNotBool,
    InvalidDate(Seq<char>),
    NotATerm(Seq<char>),
    EmptyQuery,
    MissingClose,
    TrailingInput,
    ExpectedTerm,
}

/// A lexed token, mathematically.
pub enum TokenV {
    Open,
    Close,
    And,
    Or,
    Not,
    Term(Field, Op, Seq<char>),
}

pub open spec fn query_view(e: Expr) -> QueryV
    decreases e,
{
    match e {
        Expr::And(a, b) => QueryV::And(Box::new(query_view(*a)), Box::new(query_view(*b))),
        Expr::Or(a, b) => QueryV::Or(Box::new(query_view(*a)), Box::new(query_view(*b))),
        Expr::Not(a) => QueryV::Not(Box::new(query_view(*a))),
        Expr::Term(t) => QueryV::Term(t.field, t.op, t.value@),
    }
}

pub open spec fn error_view(e: QueryError) -> QueryErrV {
    match e {
        QueryError::UnterminatedQuote(s) => QueryErrV::UnterminatedQuote(s@),
        QueryError::UnknownField(s) => QueryErrV::UnknownField(s@),
        QueryError::EmptyValue(s) => QueryErrV::EmptyValue(s@),
        QueryError::OrderingUnsupported(s) => QueryErrV::OrderingUnsupported(s@),
        QueryError::InvalidStatus(s) => QueryErrV::InvalidStatus(s@),
        QueryError::InvalidPriority(s) => QueryErrV::InvalidPriority(s@),
        QueryError::InvalidEffort(s) => QueryErrV::InvalidEffort(s@),
        QueryError::InvalidType(s) => QueryErrV::InvalidType(s@),
        QueryError::ReadyNotBool => QueryErrV::ReadyNotBool,
        QueryError::OpenNotBool => QueryErrV::OpenNotBool,
        QueryError::InvalidDate(s) => QueryErrV::InvalidDate(s@),
        QueryError::NotATerm(s) => QueryErrV::NotATerm(s@),
        QueryError::EmptyQuery => QueryErrV::EmptyQuery,
        QueryError::MissingClose => QueryErrV::MissingClose,
        QueryError::TrailingInput => QueryErrV::TrailingInput,
        QueryError::ExpectedTerm => QueryErrV::ExpectedTerm,
    }
}

// ---------------------------------------------------------------------------
// Fields and values

/// The field a name (or alias) denotes.
pub open spec fn field_named(s: Seq<char>) -> Option<Field> {
    if s == "status"@ {
        Some(Field::Status)
    } else if s == "priority"@ {
        Some(Field::Priority)
    } else if s == "effort"@ {
        Some(Field::Effort)
    } else if s == "type"@ {
        Some(Field::Type)
    } else if s == "phase"@ {
        Some(Field::Phase)
    } else if s == "tag"@ || s == "tags"@ {
        Some(Field::Tag)
    } else if s == "owner"@ {
        Some(Field::Owner)
    } else if s == "group"@ {
        Some(Field::Group)
    } else if s == "scope"@ || s == "touches"@ {
        Some(Field::Scope)
    } else if s == "id"@ {
        Some(Field::Id)
    } else if s == "title"@ {
        Some(Field::Title)
    } else if s == "depends"@ {
        Some(Field::Depends)
    } else if s == "ready"@ {
        Some(Field::Ready)
    } else if s == "open"@ {
        Some(Field::Open)
    } else if s == "created"@ || s == "created_at"@ {
        Some(Field::Created)
    } else if s == "completed"@ || s == "completed_at"@ {
        Some(Field::Completed)
    } else if s == "cancelled"@ || s == "cancelled_at"@ {
        Some(Field::Cancelled)
    } else {
        None
    }
}

impl Field {
    /// Fields that take ordering operators: priority, effort and the dates.
    pub open spec fn ordered(self) -> bool {
        self == Field::Priority || self == Field::Effort || self == Field::Created || self
            == Field::Completed || self == Field::Cancelled
    }

    /// Whether this is one of the date fields.
    pub open spec fn is_date(self) -> bool {
        self == Field::Created || self == Field::Completed || self == Field::Cancelled
    }

    /// The field a name (or alias) denotes.
    pub fn parse(s: &str) -> (r: Option<Field>)
        ensures
            r == field_named(s@),
    {
        if str_eq(s, "status") {
            Some(Field::Status)
        } else if str_eq(s, "priority") {
            Some(Field::Priority)
        } else if str_eq(s, "effort") {
            Some(Field::Effort)
        } else if str_eq(s, "type") {
            Some(Field::Type)
        } else if str_eq(s, "phase") {
            Some(Field::Phase)
        } else if str_eq(s, "tag") || str_eq(s, "tags") {
            Some(Field::Tag)
        } else if str_eq(s, "owner") {
            Some(Field::Owner)
        } else if str_eq(s, "group") {
            Some(Field::Group)
        } else if str_eq(s, "scope") || str_eq(s, "touches") {
            Some(Field::Scope)
        } else if str_eq(s, "id") {
            Some(Field::Id)
        } else if str_eq(s, "title") {
            Some(Field::Title)
        } else if str_eq(s, "depends") {
            Some(Field::Depends)
        } else if str_eq(s, "ready") {
            Some(Field::Ready)
        } else if str_eq(s, "open") {
            Some(Field::Open)
        } else if str_eq(s, "created") || str_eq(s, "created_at") {
            Some(Field::Created)
        } else if str_eq(s, "completed") || str_eq(s, "completed_at") {
            Some(Field::Completed)
        } else if str_eq(s, "cancelled") || str_eq(s, "cancelled_at") {
            Some(Field::Cancelled)
        } else {
            None
        }
    }

    /// Whether the field takes ordering operators.
    pub fn is_ordered(self) -> (r: bool)
        ensures
            r == self.ordered(),
    {
        match self {
            Field::Priority | Field::Effort | Field::Created | Field::Completed
            | Field::Cancelled => true,
            _ => false,
        }
    }
}

/// What is wrong with a value for a field, if anything: enum-valued and
/// date-valued fields reject junk so that a typo fails loudly.
pub open spec fn value_problem(field: Field, v: Seq<char>) -> Option<QueryErrV> {
    match field {
        Field::Status => if status_named(v) is None {
            Some(QueryErrV::InvalidStatus(v))
        } else {
            None
        },
        Field::Priority => if priority_named(v) is None {
            Some(QueryErrV::InvalidPriority(v))
        } else {
            None
        },
        Field::Effort => if effort_named(v) is None {
            Some(QueryErrV::InvalidEffort(v))
        } else {
            None
        },
        Field::Type => if task_type_named(v) is None {
            Some(QueryErrV::InvalidType(v))
        } else {
            None
        },
        Field::Ready => if !(v == "true"@ || v == "false"@) {
            Some(QueryErrV::ReadyNotBool)
        } else {
            None
        },
        Field::Open => if !(v == "true"@ || v == "false"@) {
            Some(QueryErrV::OpenNotBool)
        } else {
            None
        },
        Field::Created | Field::Completed | Field::Cancelled => if spec_parse_ymd(v) is None {
            Some(QueryErrV::InvalidDate(v))
        } else {
            None
        },
        _ => None,
    }
}

/// Every term of the query carries a value its field accepts.
pub open spec fn query_valid(q: QueryV) -> bool
    decreases q,
{
    match q {
        QueryV::And(a, b) => query_valid(*a) && query_valid(*b),
        QueryV::Or(a, b) => query_valid(*a) && query_valid(*b),
        QueryV::Not(a) => query_valid(*a),
        QueryV::Term(f, _, v) => value_problem(f, v) is None,
    }
}

fn validate_value(field: Field, value: &str) -> (r: Result<(), QueryError>)
    ensures
        r is Ok <==> value_problem(field, value@) is None,
        r matches Err(e) ==> value_problem(field, value@) == Some(error_view(e)),
{
    match field {
        Field::Status => {
            if Status::parse(value).is_none() {
                return Err(QueryError::InvalidStatus(value.to_owned()));
            }
        },
        Field::Priority => {
            if Priority::parse(value).is_none() {
                return Err(QueryError::InvalidPriority(value.to_owned()));
            }
        },
        Field::Effort => {
            if Effort::parse(value).is_none() {
                return Err(QueryError::InvalidEffort(value.to_owned()));
            }
        },
        Field::Type => {
            if TaskType::parse(value).is_none() {
                return Err(QueryError::InvalidType(value.to_owned()));
            }
        },
        Field::Ready => {
            if !(str_eq(value, "true") || str_eq(value, "false")) {
                return Err(QueryError::ReadyNotBool);
            }
        },
        Field::Open => {
            if !(str_eq(value, "true") || str_eq(value, "false")) {
                return Err(QueryError::OpenNotBool);
            }
        },
        Field::Created | Field::Completed | Field::Cancelled => {
            if Date::parse(value).is_none() {
                return Err(QueryError::InvalidDate(value.to_owned()));
            }
        },
        _ => {},
    }
    Ok(())
}

// ---------------------------------------------------------------------------
// Lexing

/// `a` equals `b` ignoring ASCII case (`str::eq_ignore_ascii_case`).
pub open spec fn eq_ignore_case(a: Seq<char>, b: Seq<char>) -> bool {
    a.len() == b.len() && forall|i: int|
        0 <= i < a.len() ==> ascii_lower(#[trigger] a[i]) == ascii_lower(b[i])
}

/// The first index at or after `from` where `pat` occurs in `w`.
pub open spec fn find_from(w: Seq<char>, pat: Seq<char>, from: int) -> Option<int>
    decreases w.len() - from,
{
    if from < 0 || from >= w.len() || from + pat.len() > w.len() {
        None
    } else if w.subrange(from, from + pat.len()) == pat {
        Some(from)
    } else {
        find_from(w, pat, from + 1)
    }
}

/// Where a term splits: the operator's index, the operator and its length.
/// Longer operators are looked for first, so `>=` is never read as `>`.
pub open spec fn op_split(w: Seq<char>) -> Option<(int, Op, int)> {
    match find_from(w, seq!['>', '='], 0) {
        Some(p) => Some((p, Op::Ge, 2)),
        None => match find_from(w, seq!['<', '='], 0) {
            Some(p) => Some((p, Op::Le, 2)),
            None => match find_from(w, seq!['>'], 0) {
                Some(p) => Some((p, Op::Gt, 1)),
                None => match find_from(w, seq!['<'], 0) {
                    Some(p) => Some((p, Op::Lt, 1)),
                    None => match find_from(w, seq![':'], 0) {
                        Some(p) => Some((p, Op::Eq, 1)),
                        None => None,
                    },
                },
            },
        },
    }
}

/// The token one word stands for.
pub open spec fn classify_spec(w: Seq<char>) -> Result<TokenV, QueryErrV> {
    if eq_ignore_case(w, "and"@) {
        Ok(TokenV::And)
    } else if eq_ignore_case(w, "or"@) {
        Ok(TokenV::Or)
    } else if eq_ignore_case(w, "not"@) {
        Ok(TokenV::Not)
    } else {
        match op_split(w) {
            None => Err(QueryErrV::NotATerm(w)),
            Some((p, op, n)) => {
                let f = w.subrange(0, p);
                let v = trim_char(w.subrange(p + n, w.len() as int), '"');
                match field_named(f) {
                    None => Err(QueryErrV::UnknownField(f)),
                    Some(field) => if v.len() == 0 {
                        Err(QueryErrV::EmptyValue(w))
                    } else if op != Op::Eq && !field.ordered() {
                        Err(QueryErrV::OrderingUnsupported(f))
                    } else {
                        match value_problem(field, v) {
                            Some(e) => Err(e),
                            None => Ok(TokenV::Term(field, op, v)),
                        }
                    },
                }
            },
        }
    }
}

/// Characters that end an unquoted word.
pub open spec fn breaks_word(c: char) -> bool {
    is_ws(c) || c == '(' || c == ')'
}

/// Where the word that reaches index `i` ends, and whether a `"` is left
/// open there.
pub open spec fn word_scan(s: Seq<char>, i: int, quoted: bool) -> (int, bool)
    decreases s.len() - i,
{
    if i < 0 || i >= s.len() {
        (i, quoted)
    } else if s[i] == '"' {
        word_scan(s, i + 1, !quoted)
    } else if !quoted && breaks_word(s[i]) {
        (i, quoted)
    } else {
        word_scan(s, i + 1, quoted)
    }
}

pub proof fn lemma_word_scan(s: Seq<char>, i: int, q: bool)
    requires
        0 <= i <= s.len(),
    ensures
        i <= word_scan(s, i, q).0 <= s.len(),
    decreases s.len() - i,
{
    if i < s.len() {
        if s[i] == '"' {
            lemma_word_scan(s, i + 1, !q);
        } else if !q && breaks_word(s[i]) {
        } else {
            lemma_word_scan(s, i + 1, q);
        }
    }
}

/// A word that starts on a non-breaking character has at least that one.
pub proof fn lemma_word_advances(s: Seq<char>, i: int)
    requires
        0 <= i < s.len(),
        !breaks_word(s[i]),
    ensures
        i < word_scan(s, i, false).0 <= s.len(),
{
    lemma_word_scan(s, i + 1, true);
    lemma_word_scan(s, i + 1, false);
}

/// `ts` in front of a lexing result.
pub open spec fn glue(ts: Seq<TokenV>, r: Result<Seq<TokenV>, QueryErrV>) -> Result<
    Seq<TokenV>,
    QueryErrV,
> {
    match r {
        Ok(rest) => Ok(ts + rest),
        Err(e) => Err(e),
    }
}

/// The tokens of `s` from index `i` on, or the first word's error.
pub open spec fn lex_from(s: Seq<char>, i: int) -> Result<Seq<TokenV>, QueryErrV>
    decreases s.len() - i,
{
    if i < 0 || i >= s.len() {
        Ok(Seq::empty())
    } else if is_ws(s[i]) {
        lex_from(s, i + 1)
    } else if s[i] == '(' {
        glue(seq![TokenV::Open], lex_from(s, i + 1))
    } else if s[i] == ')' {
        glue(seq![TokenV::Close], lex_from(s, i + 1))
    } else {
        proof {
            lemma_word_advances(s, i);
        }
        let (j, q) = word_scan(s, i, false);
        let w = s.subrange(i, j);
        if q {
            Err(QueryErrV::UnterminatedQuote(w))
        } else {
            match classify_spec(w) {
                Err(e) => Err(e),
                Ok(t) => glue(seq![t], lex_from(s, j)),
            }
        }
    }
}

#[derive(Debug, PartialEq)]
enum Token {
    Open,
    Close,
    And,
    Or,
    Not,
    Term(Term),
}

spec fn token_view(t: Token) -> TokenV {
    match t {
        Token::Open => TokenV::Open,
        Token::Close => TokenV::Close,
        Token::And => TokenV::And,
        Token::Or => TokenV::Or,
        Token::Not => TokenV::Not,
        Token::Term(t) => TokenV::Term(t.field, t.op, t.value@),
    }
}

spec fn tokens_view(ts: Seq<Token>) -> Seq<TokenV> {
    ts.map_values(|t: Token| token_view(t))
}

/// `a` and `b` agree once ASCII letters are lowered.
fn same_lowered(a: char, b: char) -> (r: bool)
    ensures
        r == (ascii_lower(a) == ascii_lower(b)),
{
    let x: u32 = if 'A' <= a && a <= 'Z' { a as u32 + 32 } else { a as u32 };
    let y: u32 = if 'A' <= b && b <= 'Z' { b as u32 + 32 } else { b as u32 };
    proof {
        assert(ascii_lower(a) as u32 == x);
        assert(ascii_lower(b) as u32 == y);
    }
    x == y
}

fn eq_ignore_case_chars(a: &Vec<char>, b: &str) -> (r: bool)
    ensures
        r == eq_ignore_case(a@, b@),
{
    let bc = chars_of(b);
    if a.len() != bc.len() {
        return false;
    }
    let mut i: usize = 0;
    while i < a.len()
        invariant
            i <= a.len(),
            a.len() == bc.len(),
            bc@ == b@,
            forall|j: int| 0 <= j < i ==> ascii_lower(#[trigger] a@[j]) == ascii_lower(bc@[j]),
        decreases a.len() - i,
    {
        if !same_lowered(a[i], bc[i]) {
            return false;
        }
        i += 1;
    }
    true
}

/// Where `pat` first occurs in `w` at or after `from`.
fn find_chars(w: &Vec<char>, pat: &Vec<char>, from: usize) -> (r: Option<usize>)
    requires
        pat.len() > 0,
    ensures
        match r {
            Some(p) => find_from(w@, pat@, from as int) == Some(p as int),
            None => find_from(w@, pat@, from as int) is None,
        },
    decreases w.len() - from,
{
    if from >= w.len() || pat.len() > w.len() - from {
        return None;
    }
    let mut k: usize = 0;
    while k < pat.len()
        invariant
            k <= pat.len(),
            from + pat.len() <= w.len(),
            forall|j: int| 0 <= j < k ==> w@[from + j] == pat@[j],
        decreases pat.len() - k,
    {
        if w[from + k] != pat[k] {
            proof {
                assert(w@.subrange(from as int, from + pat.len())[k as int] != pat@[k as int]);
            }
            return find_chars(w, pat, from + 1);
        }
        k += 1;
    }
    assert(w@.subrange(from as int, from + pat.len()) =~= pat@);
    Some(from)
}

/// The operator split of a word, as [`op_split`] describes it.
fn find_op(w: &Vec<char>) -> (r: Option<(usize, Op, usize)>)
    ensures
        match r {
            Some((p, op, n)) => op_split(w@) == Some((p as int, op, n as int)),
            None => op_split(w@) is None,
        },
{
    let ge = vec!['>', '='];
    assert(ge@ =~= seq!['>', '=']);
    if let Some(p) = find_chars(w, &ge, 0) {
        return Some((p, Op::Ge, 2));
    }
    let le = vec!['<', '='];
    assert(le@ =~= seq!['<', '=']);
    if let Some(p) = find_chars(w, &le, 0) {
        return Some((p, Op::Le, 2));
    }
    let gt = vec!['>'];
    assert(gt@ =~= seq!['>']);
    if let Some(p) = find_chars(w, &gt, 0) {
        return Some((p, Op::Gt, 1));
    }
    let lt = vec!['<'];
    assert(lt@ =~= seq!['<']);
    if let Some(p) = find_chars(w, &lt, 0) {
        return Some((p, Op::Lt, 1));
    }
    let colon = vec![':'];
    assert(colon@ =~= seq![':']);
    if let Some(p) = find_chars(w, &colon, 0) {
        return Some((p, Op::Eq, 1));
    }
    None
}

proof fn lemma_find_bounds(w: Seq<char>, pat: Seq<char>, from: int)
    requires
        find_from(w, pat, from) is Some,
    ensures
        0 <= from <= find_from(w, pat, from).unwrap(),
        find_from(w, pat, from).unwrap() + pat.len() <= w.len(),
    decreases w.len() - from,
{
    if !(from < 0 || from >= w.len() || from + pat.len() > w.len()) && w.subrange(
        from,
        from + pat.len(),
    ) != pat {
        lemma_find_bounds(w, pat, from + 1);
    }
}

proof fn lemma_op_split_bounds(w: Seq<char>)
    requires
        op_split(w) is Some,
    ensures
        0 <= op_split(w).unwrap().0,
        op_split(w).unwrap().0 + op_split(w).unwrap().2 <= w.len(),
{
    if find_from(w, seq!['>', '='], 0) is Some {
        lemma_find_bounds(w, seq!['>', '='], 0);
    } else if find_from(w, seq!['<', '='], 0) is Some {
        lemma_find_bounds(w, seq!['<', '='], 0);
    } else if find_from(w, seq!['>'], 0) is Some {
        lemma_find_bounds(w, seq!['>'], 0);
    } else if find_from(w, seq!['<'], 0) is Some {
        lemma_find_bounds(w, seq!['<'], 0);
    } else {
        lemma_find_bounds(w, seq![':'], 0);
    }
}

/// The token one word stands for.
fn classify(w: &Vec<char>) -> (r: Result<Token, QueryError>)
    ensures
        match r {
            Ok(t) => classify_spec(w@) == Ok::<TokenV, QueryErrV>(token_view(t)),
            Err(e) => classify_spec(w@) == Err::<TokenV, QueryErrV>(error_view(e)),
        },
{
    if eq_ignore_case_chars(w, "and") {
        return Ok(Token::And);
    }
    if eq_ignore_case_chars(w, "or") {
        return Ok(Token::Or);
    }
    if eq_ignore_case_chars(w, "not") {
        return Ok(Token::Not);
    }
    match find_op(w) {
        None => Err(QueryError::NotATerm(string_of(w.as_slice()))),
        Some((p, op, n)) => {
            proof {
                lemma_op_split_bounds(w@);
                assert(op_split(w@).unwrap() == (p as int, op, n as int));
                assert(p + n <= w@.len());
            }
            let wl = w.len();
            assert(wl == w@.len());
            let fchars = slice_to_vec(slice_subrange(w.as_slice(), 0, p));
            let rest = slice_subrange(w.as_slice(), p + n, wl);
            let vchars = trim_char_chars(rest, '"');
            let fstr = string_of(fchars.as_slice());
            match Field::parse(fstr.as_str()) {
                None => Err(QueryError::UnknownField(fstr)),
                Some(field) => {
                    if vchars.len() == 0 {
                        return Err(QueryError::EmptyValue(string_of(w.as_slice())));
                    }
                    if op != Op::Eq && !field.is_ordered() {
                        return Err(QueryError::OrderingUnsupported(fstr));
                    }
                    let value = string_of(vchars.as_slice());
                    match validate_value(field, value.as_str()) {
                        Err(e) => Err(e),
                        Ok(()) => Ok(Token::Term(Term { field, op, value })),
                    }
                },
            }
        },
    }
}

/// Split a query into tokens.
fn lex(input: &str) -> (r: Result<Vec<Token>, QueryError>)
    ensures
        match r {
            Ok(ts) => lex_from(input@, 0) == Ok::<Seq<TokenV>, QueryErrV>(tokens_view(ts@)),
            Err(e) => lex_from(input@, 0) == Err::<Seq<TokenV>, QueryErrV>(error_view(e)),
        },
        r matches Ok(ts) ==> tokens_valid(tokens_view(ts@)),
{
    let s = chars_of(input);
    let n = s.len();
    let mut tokens: Vec<Token> = Vec::new();
    let mut i: usize = 0;
    assert(tokens_view(tokens@) =~= Seq::<TokenV>::empty());
    assert(glue(Seq::empty(), lex_from(s@, 0)) == lex_from(s@, 0)) by {
        match lex_from(s@, 0) {
            Ok(rest) => {
                assert(Seq::<TokenV>::empty() + rest =~= rest);
            },
            Err(_) => {},
        }
    }
    while i < n
        invariant
            n == s.len(),
            s@ == input@,
            i <= n,
            lex_from(s@, 0) == glue(tokens_view(tokens@), lex_from(s@, i as int)),
            tokens_valid(tokens_view(tokens@)),
        decreases n - i,
    {
        let c = s[i];
        if is_whitespace(c) {
            i += 1;
        } else if c == '(' || c == ')' {
            let t = if c == '(' {
                Token::Open
            } else {
                Token::Close
            };
            proof {
                lemma_glue_push(tokens@, t, lex_from(s@, i + 1));
            }
            let ghost before = tokens@;
            tokens.push(t);
            proof {
                lemma_valid_push(before, t);
            }
            i += 1;
        } else {
            let mut j: usize = i;
            let mut quoted = false;
            while j < n
                invariant
                    i <= j <= n,
                    n == s.len(),
                    word_scan(s@, i as int, false) == word_scan(s@, j as int, quoted),
                ensures
                    word_scan(s@, i as int, false) == (j as int, quoted),
                decreases n - j,
            {
                let d = s[j];
                if d == '"' {
                    quoted = !quoted;
                    j += 1;
                } else if !quoted && (is_whitespace(d) || d == '(' || d == ')') {
                    break;
                } else {
                    j += 1;
                }
            }
            proof {
                lemma_word_advances(s@, i as int);
            }
            let w = slice_to_vec(slice_subrange(s.as_slice(), i, j));
            if quoted {
                return Err(QueryError::UnterminatedQuote(string_of(w.as_slice())));
            }
            match classify(&w) {
                Err(e) => {
                    return Err(e);
                },
                Ok(t) => {
                    proof {
                        lemma_glue_push(tokens@, t, lex_from(s@, j as int));
                    }
                    let ghost before = tokens@;
                    tokens.push(t);
                    proof {
                        lemma_valid_push(before, t);
                    }
                    i = j;
                },
            }
        }
    }
    assert(tokens_view(tokens@) + Seq::<TokenV>::empty() =~= tokens_view(tokens@));
    Ok(tokens)
}

proof fn lemma_valid_push(ts: Seq<Token>, t: Token)
    requires
        tokens_valid(tokens_view(ts)),
        token_view(t) matches TokenV::Term(f, _, v) ==> value_problem(f, v) is None,
    ensures
        tokens_valid(tokens_view(ts.push(t))),
{
    assert(tokens_view(ts.push(t)) =~= tokens_view(ts).push(token_view(t)));
    let tv = tokens_view(ts.push(t));
    assert forall|i: int| #![trigger tv[i]] 0 <= i < tv.len() implies match tv[i] {
        TokenV::Term(f, _, v) => value_problem(f, v) is None,
        _ => true,
    } by {
        if i < ts.len() {
            assert(tv[i] == tokens_view(ts)[i]);
        }
    }
}

proof fn lemma_glue_push(ts: Seq<Token>, t: Token, rest: Result<Seq<TokenV>, QueryErrV>)
    ensures
        glue(tokens_view(ts), glue(seq![token_view(t)], rest)) == glue(tokens_view(ts.push(t)), rest),
{
    assert(tokens_view(ts.push(t)) =~= tokens_view(ts).push(token_view(t)));
    match rest {
        Ok(r) => {
            assert(tokens_view(ts) + (seq![token_view(t)] + r) =~= tokens_view(ts).push(token_view(t)) + r);
        },
        Err(_) => {},
    }
}

// ---------------------------------------------------------------------------
// Parsing
//
// Each phrase parser takes the token index it starts at and gives the phrase
// with the index just after it. A successful step always consumes a token;
// the index checks in the definitions only make that visible to the
// termination measure.

pub open spec fn parse_or_spec(ts: Seq<TokenV>, pos: int) -> Result<(QueryV, int), QueryErrV>
    decreases ts.len() - pos, 4int,
{
    match parse_and_spec(ts, pos) {
        Err(e) => Err(e),
        Ok((l, p)) => if pos < p <= ts.len() {
            or_rest(ts, p, l)
        } else {
            Err(QueryErrV::ExpectedTerm)
        },
    }
}

/// `( OR and )*` after a parsed `left`.
pub open spec fn or_rest(ts: Seq<TokenV>, pos: int, left: QueryV) -> Result<(QueryV, int), QueryErrV>
    decreases ts.len() - pos, 3int,
{
    if 0 <= pos < ts.len() && ts[pos] is Or {
        match parse_and_spec(ts, pos + 1) {
            Err(e) => Err(e),
            Ok((r, p)) => if pos < p <= ts.len() {
                or_rest(ts, p, QueryV::Or(Box::new(left), Box::new(r)))
            } else {
                Err(QueryErrV::ExpectedTerm)
            },
        }
    } else {
        Ok((left, pos))
    }
}

pub open spec fn parse_and_spec(ts: Seq<TokenV>, pos: int) -> Result<(QueryV, int), QueryErrV>
    decreases ts.len() - pos, 2int,
{
    match parse_unary_spec(ts, pos) {
        Err(e) => Err(e),
        Ok((l, p)) => if pos < p <= ts.len() {
            and_rest(ts, p, l)
        } else {
            Err(QueryErrV::ExpectedTerm)
        },
    }
}

/// `( AND unary )*` after a parsed `left`.
pub open spec fn and_rest(ts: Seq<TokenV>, pos: int, left: QueryV) -> Result<(QueryV, int), QueryErrV>
    decreases ts.len() - pos, 1int,
{
    if 0 <= pos < ts.len() && ts[pos] is And {
        match parse_unary_spec(ts, pos + 1) {
            Err(e) => Err(e),
            Ok((r, p)) => if pos < p <= ts.len() {
                and_rest(ts, p, QueryV::And(Box::new(left), Box::new(r)))
            } else {
                Err(QueryErrV::ExpectedTerm)
            },
        }
    } else {
        Ok((left, pos))
    }
}

pub open spec fn parse_unary_spec(ts: Seq<TokenV>, pos: int) -> Result<(QueryV, int), QueryErrV>
    decreases ts.len() - pos, 0int,
{
    if 0 <= pos < ts.len() {
        match ts[pos] {
            TokenV::Not => match parse_unary_spec(ts, pos + 1) {
                Err(e) => Err(e),
                Ok((x, p)) => Ok((QueryV::Not(Box::new(x)), p)),
            },
            TokenV::Open => match parse_or_spec(ts, pos + 1) {
                Err(e) => Err(e),
                Ok((x, p)) => if 0 <= p < ts.len() && ts[p] is Close {
                    Ok((x, p + 1))
                } else {
                    Err(QueryErrV::MissingClose)
                },
            },
            TokenV::Term(f, o, v) => Ok((QueryV::Term(f, o, v), pos + 1)),
            _ => Err(QueryErrV::ExpectedTerm),
        }
    } else {
        Err(QueryErrV::ExpectedTerm)
    }
}

/// What a query text parses to.
pub open spec fn parse_spec(s: Seq<char>) -> Result<QueryV, QueryErrV> {
    match lex_from(s, 0) {
        Err(e) => Err(e),
        Ok(ts) => if ts.len() == 0 {
            Err(QueryErrV::EmptyQuery)
        } else {
            match parse_or_spec(ts, 0) {
                Err(e) => Err(e),
                Ok((q, p)) => if p != ts.len() {
                    Err(QueryErrV::TrailingInput)
                } else {
                    Ok(q)
                },
            }
        },
    }
}

/// Every term token carries a value its field accepts.
pub open spec fn tokens_valid(ts: Seq<TokenV>) -> bool {
    forall|i: int| #![trigger ts[i]] 0 <= i < ts.len() ==> match ts[i] {
        TokenV::Term(f, _, v) => value_problem(f, v) is None,
        _ => true,
    }
}

/// A parse result from `pos` within `ts`: the spec's answer, a strictly
/// later end index, and valid terms only.
spec fn parsed(
    r: Result<(Expr, usize), QueryError>,
    spec_r: Result<(QueryV, int), QueryErrV>,
    pos: int,
    n: int,
) -> bool {
    match r {
        Ok((e, p)) => spec_r == Ok::<(QueryV, int), QueryErrV>((query_view(e), p as int)) && pos
            < p <= n && query_valid(query_view(e)),
        Err(err) => spec_r == Err::<(QueryV, int), QueryErrV>(error_view(err)),
    }
}

fn copy_term(t: &Term) -> (r: Term)
    ensures
        r.field == t.field,
        r.op == t.op,
        r.value@ == t.value@,
{
    Term { field: t.field, op: t.op, value: t.value.clone() }
}

fn is_or(t: &Token) -> (r: bool)
    ensures
        r == (token_view(*t) is Or),
{
    match t {
        Token::Or => true,
        _ => false,
    }
}

fn is_and(t: &Token) -> (r: bool)
    ensures
        r == (token_view(*t) is And),
{
    match t {
        Token::And => true,
        _ => false,
    }
}

fn is_close(t: &Token) -> (r: bool)
    ensures
        r == (token_view(*t) is Close),
{
    match t {
        Token::Close => true,
        _ => false,
    }
}

fn parse_or(tokens: &Vec<Token>, pos: usize) -> (r: Result<(Expr, usize), QueryError>)
    requires
        pos <= tokens.len(),
        tokens_valid(tokens_view(tokens@)),
    ensures
        parsed(r, parse_or_spec(tokens_view(tokens@), pos as int), pos as int, tokens.len() as int),
    decreases tokens.len() - pos, 4int,
{
    let ghost tv = tokens_view(tokens@);
    let (mut left, mut p) = match parse_and(tokens, pos) {
        Err(e) => {
            return Err(e);
        },
        Ok(x) => x,
    };
    while p < tokens.len() && is_or(&tokens[p])
        invariant
            pos < p <= tokens.len(),
            tv == tokens_view(tokens@),
            tokens_valid(tv),
            parse_or_spec(tv, pos as int) == or_rest(tv, p as int, query_view(left)),
            query_valid(query_view(left)),
        decreases tokens.len() - p,
    {
        assert(tv[p as int] == token_view(tokens@[p as int]));
        match parse_and(tokens, p + 1) {
            Err(e) => {
                return Err(e);
            },
            Ok((right, q)) => {
                left = Expr::Or(Box::new(left), Box::new(right));
                p = q;
            },
        }
    }
    proof {
        if (p as int) < tokens.len() {
            assert(tv[p as int] == token_view(tokens@[p as int]));
        }
    }
    Ok((left, p))
}

fn parse_and(tokens: &Vec<Token>, pos: usize) -> (r: Result<(Expr, usize), QueryError>)
    requires
        pos <= tokens.len(),
        tokens_valid(tokens_view(tokens@)),
    ensures
        parsed(r, parse_and_spec(tokens_view(tokens@), pos as int), pos as int, tokens.len() as int),
    decreases tokens.len() - pos, 2int,
{
    let ghost tv = tokens_view(tokens@);
    let (mut left, mut p) = match parse_unary(tokens, pos) {
        Err(e) => {
            return Err(e);
        },
        Ok(x) => x,
    };
    while p < tokens.len() && is_and(&tokens[p])
        invariant
            pos < p <= tokens.len(),
            tv == tokens_view(tokens@),
            tokens_valid(tv),
            parse_and_spec(tv, pos as int) == and_rest(tv, p as int, query_view(left)),
            query_valid(query_view(left)),
        decreases tokens.len() - p,
    {
        assert(tv[p as int] == token_view(tokens@[p as int]));
        match parse_unary(tokens, p + 1) {
            Err(e) => {
                return Err(e);
            },
            Ok((right, q)) => {
                left = Expr::And(Box::new(left), Box::new(right));
                p = q;
            },
        }
    }
    proof {
        if (p as int) < tokens.len() {
            assert(tv[p as int] == token_view(tokens@[p as int]));
        }
    }
    Ok((left, p))
}

fn parse_unary(tokens: &Vec<Token>, pos: usize) -> (r: Result<(Expr, usize), QueryError>)
    requires
        pos <= tokens.len(),
        tokens_valid(tokens_view(tokens@)),
    ensures
        parsed(r, parse_unary_spec(tokens_view(tokens@), pos as int), pos as int, tokens.len() as int),
    decreases tokens.len() - pos, 0int,
{
    let ghost tv = tokens_view(tokens@);
    if pos >= tokens.len() {
        return Err(QueryError::ExpectedTerm);
    }
    assert(tv[pos as int] == token_view(tokens@[pos as int]));
    match &tokens[pos] {
        Token::Not => match parse_unary(tokens, pos + 1) {
            Err(e) => Err(e),
            Ok((x, p)) => Ok((Expr::Not(Box::new(x)), p)),
        },
        Token::Open => match parse_or(tokens, pos + 1) {
            Err(e) => Err(e),
            Ok((x, p)) => {
                if p < tokens.len() && is_close(&tokens[p]) {
                    assert(tv[p as int] == token_view(tokens@[p as int]));
                    Ok((x, p + 1))
                } else {
                    proof {
                        if (p as int) < tokens.len() {
                            assert(tv[p as int] == token_view(tokens@[p as int]));
                        }
                    }
                    Err(QueryError::MissingClose)
                }
            },
        },
        Token::Term(t) => Ok((Expr::Term(copy_term(t)), pos + 1)),
        _ => Err(QueryError::ExpectedTerm),
    }
}

/// Parse a query string into an [`Expr`]. An all-whitespace query is an
/// error; callers treat "no query" as "match everything" themselves.
pub fn parse(input: &str) -> (r: Result<Expr, QueryError>)
    ensures
        match r {
            Ok(e) => parse_spec(input@) == Ok::<QueryV, QueryErrV>(query_view(e)),
            Err(err) => parse_spec(input@) == Err::<QueryV, QueryErrV>(error_view(err)),
        },
        r matches Ok(e) ==> query_valid(query_view(e)),
        trim(input@).len() == 0 ==> r matches Err(QueryError::EmptyQuery),
{
    proof {
        lemma_trim_empty(input@);
        if trim(input@).len() == 0 {
            lemma_lex_blank(input@, 0);
        }
    }
    let tokens = match lex(input) {
        Err(e) => {
            return Err(e);
        },
        Ok(ts) => ts,
    };
    if tokens.len() == 0 {
        return Err(QueryError::EmptyQuery);
    }
    match parse_or(&tokens, 0) {
        Err(e) => Err(e),
        Ok((q, p)) => {
            if p != tokens.len() {
                Err(QueryError::TrailingInput)
            } else {
                Ok(q)
            }
        },
    }
}

proof fn lemma_lex_blank(s: Seq<char>, i: int)
    requires
        0 <= i <= s.len(),
        forall|j: int| 0 <= j < s.len() ==> is_ws(#[trigger] s[j]),
    ensures
        lex_from(s, i) == Ok::<Seq<TokenV>, QueryErrV>(Seq::empty()),
    decreases s.len() - i,
{
    if i < s.len() {
        lemma_lex_blank(s, i + 1);
    }
}

// ---------------------------------------------------------------------------
// Evaluation

/// Three-way comparison of two integers: -1, 0 or 1.
pub open spec fn order_of(a: int, b: int) -> int {
    if a < b {
        -1
    } else if a == b {
        0
    } else {
        1
    }
}

/// Chronological three-way comparison of two (year, month, day) dates.
pub open spec fn ymd_order(a: (int, int, int), b: (int, int, int)) -> int {
    if a.0 != b.0 {
        order_of(a.0, b.0)
    } else if a.1 != b.1 {
        order_of(a.1, b.1)
    } else {
        order_of(a.2, b.2)
    }
}

/// Whether an operator accepts a three-way comparison outcome.
pub open spec fn op_accepts(op: Op, o: int) -> bool {
    match op {
        Op::Eq => o == 0,
        Op::Ge => o >= 0,
        Op::Gt => o > 0,
        Op::Le => o <= 0,
        Op::Lt => o < 0,
    }
}

/// Whether `n` occurs as a contiguous piece of `h`.
pub open spec fn has_infix(h: Seq<char>, n: Seq<char>) -> bool {
    exists|k: int| 0 <= k && k + n.len() <= h.len() && #[trigger] h.subrange(k, k + n.len()) == n
}

/// The creation date a task reports: `created_at`, else the older `created`.
pub open spec fn created_of(t: Task) -> Option<(int, int, int)> {
    if t.field("created_at"@) is Some {
        t.date("created_at"@)
    } else {
        t.date("created"@)
    }
}

pub open spec fn effort_of(t: Task) -> Option<Effort> {
    match t.text("effort"@) {
        Some(x) => effort_named(x),
        None => None,
    }
}

pub open spec fn type_of(t: Task) -> Option<TaskType> {
    match t.text("type"@) {
        Some(x) => task_type_named(x),
        None => None,
    }
}

/// An explicit `group:` wins over the scanner's directory group.
pub open spec fn group_of(t: Task) -> Option<Seq<char>> {
    match t.text("group"@) {
        Some(g) => Some(g),
        None => opt_text(t.dir_group),
    }
}

/// A date term: a task without the date never matches.
pub open spec fn date_holds(op: Op, actual: Option<(int, int, int)>, v: Seq<char>) -> bool {
    match actual {
        Some(d) => op_accepts(op, ymd_order(d, spec_parse_ymd(v).unwrap())),
        None => false,
    }
}

/// Whether one term holds of a task; `ready` comes from the dependency graph.
pub open spec fn term_holds(f: Field, op: Op, v: Seq<char>, t: Task, ready: bool) -> bool {
    match f {
        Field::Status => status_text(t.effective_status_spec()) == v,
        Field::Priority => op_accepts(
            op,
            order_of(priority_rank(t.effective_priority_spec()), priority_rank(priority_named(v).unwrap())),
        ),
        Field::Effort => match effort_of(t) {
            Some(e) => op_accepts(op, order_of(effort_rank(e), effort_rank(effort_named(v).unwrap()))),
            None => false,
        },
        Field::Type => match type_of(t) {
            Some(x) => task_type_text(x) == v,
            None => false,
        },
        Field::Phase => t.text("phase"@) == Some(v),
        Field::Tag => t.list("tags"@).contains(v),
        Field::Owner => t.text("owner"@) == Some(v),
        Field::Group => group_of(t) == Some(v),
        Field::Scope => t.list("touches"@).contains(v),
        Field::Id => t.id_spec() == v,
        Field::Title => has_infix(spec_to_lowercase(t.title_spec()), spec_to_lowercase(v)),
        Field::Depends => t.list("dependencies"@).contains(v),
        Field::Ready => ready == (v == "true"@),
        Field::Open => (t.effective_status_spec() == Status::Completed || t.effective_status_spec()
            == Status::Cancelled) != (v == "true"@),
        Field::Created => date_holds(op, created_of(t), v),
        Field::Completed => date_holds(op, t.date("completed_at"@), v),
        Field::Cancelled => date_holds(op, t.date("cancelled_at"@), v),
    }
}

/// Whether a query holds of a task.
pub open spec fn eval_spec(q: QueryV, t: Task, ready: bool) -> bool
    decreases q,
{
    match q {
        QueryV::And(a, b) => eval_spec(*a, t, ready) && eval_spec(*b, t, ready),
        QueryV::Or(a, b) => eval_spec(*a, t, ready) || eval_spec(*b, t, ready),
        QueryV::Not(a) => !eval_spec(*a, t, ready),
        QueryV::Term(f, o, v) => term_holds(f, o, v, t, ready),
    }
}

/// Per-task context the evaluator needs beyond the task itself.
pub struct EvalCtx {
    /// From the dependency graph: all dependencies `completed`.
    pub ready: bool,
}

fn order_u8(a: u8, b: u8) -> (r: i8)
    ensures
        r as int == order_of(a as int, b as int),
{
    if a < b {
        -1
    } else if a == b {
        0
    } else {
        1
    }
}

fn date_order(a: Date, b: Date) -> (r: i8)
    ensures
        r as int == ymd_order(
            (a.year as int, a.month as int, a.day as int),
            (b.year as int, b.month as int, b.day as int),
        ),
{
    if a.year != b.year {
        if a.year < b.year {
            -1
        } else {
            1
        }
    } else if a.month != b.month {
        if a.month < b.month {
            -1
        } else {
            1
        }
    } else if a.day < b.day {
        -1
    } else if a.day == b.day {
        0
    } else {
        1
    }
}

fn op_matches(op: Op, o: i8) -> (r: bool)
    ensures
        r == op_accepts(op, o as int),
{
    match op {
        Op::Eq => o == 0,
        Op::Ge => o >= 0,
        Op::Gt => o > 0,
        Op::Le => o <= 0,
        Op::Lt => o < 0,
    }
}

/// Whether `n` occurs in `h` starting at `k`.
fn occurs_at(h: &Vec<char>, n: &Vec<char>, k: usize) -> (r: bool)
    requires
        k + n.len() <= h.len(),
    ensures
        r == (h@.subrange(k as int, k + n.len()) == n@),
{
    let mut m: usize = 0;
    while m < n.len()
        invariant
            m <= n.len(),
            k + n.len() <= h.len(),
            forall|x: int| 0 <= x < m ==> h@[k + x] == n@[x],
        decreases n.len() - m,
    {
        if h[k + m] != n[m] {
            assert(h@.subrange(k as int, k + n.len())[m as int] != n@[m as int]);
            return false;
        }
        m += 1;
    }
    assert(h@.subrange(k as int, k + n.len()) =~= n@);
    true
}

/// `str::contains` on characters.
pub(crate) fn contains_chars(h: &Vec<char>, n: &Vec<char>) -> (r: bool)
    ensures
        r == has_infix(h@, n@),
{
    if n.len() > h.len() {
        return false;
    }
    if n.len() == 0 {
        assert(h@.subrange(0int, 0int + n@.len()) =~= n@);
        return true;
    }
    let mut k: usize = 0;
    while n.len() <= h.len() - k
        invariant
            k <= h.len(),
            1 <= n.len() <= h.len(),
            forall|j: int| 0 <= j < k ==> #[trigger] h@.subrange(j, j + n.len()) != n@,
        decreases h.len() - k,
    {
        if occurs_at(h, n, k) {
            return true;
        }
        k += 1;
    }
    false
}

fn date_matches(op: Op, actual: Option<Date>, value: &str) -> (r: bool)
    requires
        spec_parse_ymd(value@) is Some,
    ensures
        r == date_holds(op, date_parts(actual), value@),
{
    match actual {
        None => false,
        Some(d) => {
            let wanted = Date::parse(value).unwrap();
            op_matches(op, date_order(d, wanted))
        },
    }
}

fn opt_eq(o: Option<String>, v: &str) -> (r: bool)
    ensures
        r == (opt_text(o) == Some(v@)),
{
    match o {
        Some(x) => str_eq(x.as_str(), v),
        None => false,
    }
}

fn eval_term(term: &Term, task: &Task, ctx: &EvalCtx) -> (r: bool)
    requires
        value_problem(term.field, term.value@) is None,
    ensures
        r == term_holds(term.field, term.op, term.value@, *task, ctx.ready),
{
    let v = term.value.as_str();
    match term.field {
        Field::Status => str_eq(task.effective_status().as_str(), v),
        Field::Priority => {
            let want = Priority::parse(v).unwrap();
            op_matches(term.op, order_u8(task.effective_priority().rank(), want.rank()))
        },
        Field::Effort => match task.effort() {
            Some(e) => {
                let want = Effort::parse(v).unwrap();
                op_matches(term.op, order_u8(e.rank(), want.rank()))
            },
            None => false,
        },
        Field::Type => match task.task_type() {
            Some(t) => str_eq(t.as_str(), v),
            None => false,
        },
        Field::Phase => opt_eq(task.phase(), v),
        Field::Tag => contains_str(&task.tags(), v),
        Field::Owner => opt_eq(task.owner(), v),
        Field::Group => opt_eq(task.group(), v),
        Field::Scope => contains_str(&task.touches(), v),
        Field::Id => str_eq(task.id().as_str(), v),
        Field::Title => {
            let title = to_lowercase(task.title().as_str());
            let needle = to_lowercase(v);
            contains_chars(&chars_of(title.as_str()), &chars_of(needle.as_str()))
        },
        Field::Depends => contains_str(&task.dependencies(), v),
        Field::Ready => ctx.ready == str_eq(v, "true"),
        Field::Open => task.effective_status().is_terminal() != str_eq(v, "true"),
        Field::Created => date_matches(term.op, task.created_at(), v),
        Field::Completed => date_matches(term.op, task.completed_at(), v),
        Field::Cancelled => date_matches(term.op, task.cancelled_at(), v),
    }
}

/// Evaluate a parsed query against one task.
pub fn eval(expr: &Expr, task: &Task, ctx: &EvalCtx) -> (r: bool)
    requires
        query_valid(query_view(*expr)),
    ensures
        r == eval_spec(query_view(*expr), *task, ctx.ready),
    decreases expr,
{
    match expr {
        Expr::And(a, b) => eval(a, task, ctx) && eval(b, task, ctx),
        Expr::Or(a, b) => eval(a, task, ctx) || eval(b, task, ctx),
        Expr::Not(a) => !eval(a, task, ctx),
        Expr::Term(t) => eval_term(t, task, ctx),
    }
}

// ---------------------------------------------------------------------------
// Messages

/// The human-readable text of a query error.
pub open spec fn error_text(e: QueryErrV) -> Seq<char> {
    match e {
        QueryErrV::UnterminatedQuote(w) => "unterminated quote in query near `"@ + w + "`"@,
        QueryErrV::UnknownField(f) => "unknown field `"@ + f
            + "` (fields: status, priority, effort, type, phase, tag, owner, group, scope, id, title, depends, ready, open, created, completed, cancelled)"@,
        QueryErrV::EmptyValue(w) => "empty value in query term `"@ + w + "`"@,
        QueryErrV::OrderingUnsupported(f) => "`"@ + f
            + "` only supports `:` (ordering works on priority, effort, dates)"@,
        QueryErrV::InvalidStatus(v) => "invalid status `"@ + v
            + "` (pending, in-progress, in-review, completed, blocked, cancelled)"@,
        QueryErrV::InvalidPriority(v) => "invalid priority `"@ + v
            + "` (low, medium, high, critical)"@,
        QueryErrV::InvalidEffort(v) => "invalid effort `"@ + v + "` (small, medium, large)"@,
        QueryErrV::InvalidType(v) => "invalid type `"@ + v
            + "` (feature, bug, improvement, chore, docs)"@,
        QueryErrV::ReadyNotBool => "`ready` takes true or false"@,
        QueryErrV::OpenNotBool => "`open` takes true or false"@,
        QueryErrV::InvalidDate(v) => "invalid date `"@ + v + "` (need YYYY-MM-DD)"@,
        QueryErrV::NotATerm(w) => "expected `field:value` (or AND/OR/NOT), got `"@ + w + "`"@,
        QueryErrV::EmptyQuery => "empty query"@,
        QueryErrV::MissingClose => "missing closing `)` in query"@,
        QueryErrV::TrailingInput => "unexpected trailing input in query"@,
        QueryErrV::ExpectedTerm => "expected a term, NOT, or `(` in query"@,
    }
}

fn framed(pre: &str, mid: &str, post: &str) -> (r: String)
    ensures
        r@ == pre@ + mid@ + post@,
{
    let mut s = pre.to_owned();
    s.append(mid);
    s.append(post);
    s
}

impl QueryError {
    /// The human-readable reason.
    pub fn message(&self) -> (r: String)
        ensures
            r@ == error_text(error_view(*self)),
    {
        match self {
            QueryError::UnterminatedQuote(w) => framed(
                "unterminated quote in query near `",
                w.as_str(),
                "`",
            ),
            QueryError::UnknownField(f) => framed(
                "unknown field `",
                f.as_str(),
                "` (fields: status, priority, effort, type, phase, tag, owner, group, scope, id, title, depends, ready, open, created, completed, cancelled)",
            ),
            QueryError::EmptyValue(w) => framed("empty value in query term `", w.as_str(), "`"),
            QueryError::OrderingUnsupported(f) => framed(
                "`",
                f.as_str(),
                "` only supports `:` (ordering works on priority, effort, dates)",
            ),
            QueryError::InvalidStatus(v) => framed(
                "invalid status `",
                v.as_str(),
                "` (pending, in-progress, in-review, completed, blocked, cancelled)",
            ),
            QueryError::InvalidPriority(v) => framed(
                "invalid priority `",
                v.as_str(),
                "` (low, medium, high, critical)",
            ),
            QueryError::InvalidEffort(v) => framed(
                "invalid effort `",
                v.as_str(),
                "` (small, medium, large)",
            ),
            QueryError::InvalidType(v) => framed(
                "invalid type `",
                v.as_str(),
                "` (feature, bug, improvement, chore, docs)",
            ),
            QueryError::ReadyNotBool => "`ready` takes true or false".to_owned(),
            QueryError::OpenNotBool => "`open` takes true or false".to_owned(),
            QueryError::InvalidDate(v) => framed("invalid date `", v.as_str(), "` (need YYYY-MM-DD)"),
            QueryError::NotATerm(w) => framed(
                "expected `field:value` (or AND/OR/NOT), got `",
                w.as_str(),
                "`",
            ),
            QueryError::EmptyQuery => "empty query".to_owned(),
            QueryError::MissingClose => "missing closing `)` in query".to_owned(),
            QueryError::TrailingInput => "unexpected trailing input in query".to_owned(),
            QueryError::ExpectedTerm => "expected a term, NOT, or `(` in query".to_owned(),
        }
    }
}

/// Negating twice gives back the query's verdict on every task.
pub proof fn law_double_negation(q: QueryV, t: Task, ready: bool)
    ensures
        eval_spec(QueryV::Not(Box::new(QueryV::Not(Box::new(q)))), t, ready) == eval_spec(q, t, ready),
{
    reveal_with_fuel(eval_spec, 2);
}

/// Date terms compare dates chronologically: for a task's date `a` and the
/// query's date `b`, `>` holds exactly when `a` is a later day, `<` when it
/// is an earlier one, `:` (equal) when it is the same day, and `>=` / `<=`
/// likewise, whichever of year, month or day tells them apart.
pub proof fn law_date_terms_compare_chronologically(a: (int, int, int), v: Seq<char>)
    requires
        valid_ymd(a.0, a.1, a.2),
        spec_parse_ymd(v) matches Some(b) && valid_ymd(b.0, b.1, b.2),
    ensures
        ({
            let b = spec_parse_ymd(v).unwrap();
            let da = day_number(a.0, a.1, a.2);
            let db = day_number(b.0, b.1, b.2);
            &&& date_holds(Op::Gt, Some(a), v) <==> da > db
            &&& date_holds(Op::Lt, Some(a), v) <==> da < db
            &&& date_holds(Op::Ge, Some(a), v) <==> da >= db
            &&& date_holds(Op::Le, Some(a), v) <==> da <= db
            &&& date_holds(Op::Eq, Some(a), v) <==> da == db
        }),
{
    let b = spec_parse_ymd(v).unwrap();
    if a.0 < b.0 || (a.0 == b.0 && (a.1 < b.1 || (a.1 == b.1 && a.2 < b.2))) {
        lemma_day_number_order(a, b);
    } else if b.0 < a.0 || (b.0 == a.0 && (b.1 < a.1 || (b.1 == a.1 && b.2 < a.2))) {
        lemma_day_number_order(b, a);
    } else {
        assert(a == b);
    }
}

/// Priority terms compare along low < medium < high < critical: `>` holds
/// exactly when the task's priority is strictly higher than the query's,
/// `<` when strictly lower, `:` when the same.
pub proof fn law_priority_terms_ordered(t: Task, v: Seq<char>, ready: bool)
    requires
        priority_named(v) is Some,
    ensures
        ({
            let mine = t.effective_priority_spec();
            let theirs = priority_named(v).unwrap();
            let above = |p: Priority, q: Priority|
                (p == Priority::Critical && q != Priority::Critical) || (p == Priority::High && (q == Priority::Medium
                    || q == Priority::Low)) || (p == Priority::Medium && q == Priority::Low);
            &&& term_holds(Field::Priority, Op::Gt, v, t, ready) <==> above(mine, theirs)
            &&& term_holds(Field::Priority, Op::Lt, v, t, ready) <==> above(theirs, mine)
            &&& term_holds(Field::Priority, Op::Eq, v, t, ready) <==> mine == theirs
        }),
{
}

/// Effort terms compare along small < medium < large.
pub proof fn law_effort_terms_ordered(t: Task, v: Seq<char>, ready: bool)
    requires
        effort_named(v) is Some,
        effort_of(t) is Some,
    ensures
        ({
            let mine = effort_of(t).unwrap();
            let theirs = effort_named(v).unwrap();
            let above = |p: Effort, q: Effort|
                (p == Effort::Large && q != Effort::Large) || (p == Effort::Medium && q == Effort::Small);
            &&& term_holds(Field::Effort, Op::Gt, v, t, ready) <==> above(mine, theirs)
            &&& term_holds(Field::Effort, Op::Lt, v, t, ready) <==> above(theirs, mine)
            &&& term_holds(Field::Effort, Op::Eq, v, t, ready) <==> mine == theirs
        }),
{
}

} // verus!
