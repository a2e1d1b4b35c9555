//! SQL as it is written: every statement is read back from its text.
//!
//! A text is written token by token, each behind a space.

use vstd::prelude::*;
use super::predicate::{bare, law_qualifiers_are_dropped, Op};
use super::sql::{
    clauses_at, coltype_of, columns_at, declared_at, group_at, join_at, join_columns, limit_at,
    options_at, options_map, order_at, parsed, qualified_by, rows_at, select_at, source_at,
    where_at, ColExprPart, ColExprView, ColType, ColumnPart, CondPart, CondView, InsertView,
    JoinView, MappingKind, OptionPart, SelectView, StatementView, WindowView,
};
use super::token::{
    ascii_bytes, before, col_ref_at, count_at, ident_at, integer_at, is_in, is_word, keyword_at,
    lemma_tokens_advance, list_at, literal_at, lower, op_at, past, run_end, same_word,
    separator_at, skipped, string_at, symbol_at, word_at, closed_at, Class, IdentPart, LiteralPart,
    Part, Separator,
};
use super::value::ValueView;
use crate::text::ascii_chars;
use crate::number::{
    all_digits, decimal, digits_of, integer_of, law_numerals_read_back,
    lemma_digits_spell, number_of, numeral, numeral_text,
};

verus! {

/// Text made of tokens, each behind a space.
pub open spec fn spelled(toks: Seq<Seq<char>>) -> Seq<char>
    decreases toks.len(),
{
    if toks.len() == 0 {
        Seq::empty()
    } else {
        seq![' '] + toks[0] + spelled(toks.skip(1))
    }
}

/// Whether what stands from a position on is made of these tokens.
pub open spec fn reads(s: Seq<char>, i: int, toks: Seq<Seq<char>>) -> bool {
    0 <= i <= s.len() && s.skip(i) == spelled(toks)
}

/// Whether a token can be told from the space before it.
pub open spec fn is_token(t: Seq<char>) -> bool {
    t.len() > 0 && !is_in(t[0], Class::Space)
}

/// Where the token at a position ends.
spec fn end_of(i: int, tok: Seq<char>) -> int {
    i + 1 + tok.len()
}

proof fn lemma_run(s: Seq<char>, i: int, e: int, class: Class)
    requires
        0 <= i <= e <= s.len(),
        forall|k: int| i <= k < e ==> is_in(#[trigger] s[k], class),
        e == s.len() || !is_in(s[e], class),
    ensures
        run_end(s, i, class) == e,
    decreases e - i,
{
    if i < e {
        assert(is_in(s[i], class));
        lemma_run(s, i + 1, e, class);
    }
}

/// The token that stands at a position.
proof fn lemma_token(s: Seq<char>, i: int, tok: Seq<char>, rest: Seq<Seq<char>>)
    requires
        reads(s, i, seq![tok] + rest),
        is_token(tok),
    ensures
        skipped(s, i) == i + 1,
        i + 1 <= end_of(i, tok) <= s.len(),
        s.subrange(i + 1, end_of(i, tok)) == tok,
        forall|k: int| 0 <= k < tok.len() ==> s[i + 1 + k] == #[trigger] tok[k],
        end_of(i, tok) == s.len() || s[end_of(i, tok)] == ' ',
        end_of(i, tok) == s.len() <==> rest.len() == 0,
        reads(s, end_of(i, tok), rest),
        s[i] == ' ',
{
    let all = seq![tok] + rest;
    let e = end_of(i, tok);
    let tail = s.skip(i);
    assert(all.skip(1) =~= rest);
    assert(tail == seq![' '] + tok + spelled(rest));
    assert(tail.len() == 1 + tok.len() + spelled(rest).len());
    assert(s.skip(e) =~= spelled(rest)) by {
        assert forall|k: int| 0 <= k < spelled(rest).len() implies s.skip(e)[k] == spelled(
            rest,
        )[k] by {
            assert(tail[1 + tok.len() + k] == spelled(rest)[k]);
        }
    }
    assert forall|k: int| 0 <= k < tok.len() implies s[i + 1 + k] == #[trigger] tok[k] by {
        assert(tail[1 + k] == tok[k]);
    }
    assert(s.subrange(i + 1, e) =~= tok);
    assert(s[i] == tail[0]);
    assert(s[i + 1] == tok[0]);
    lemma_run(s, i, i + 1, Class::Space);
    if rest.len() > 0 {
        assert(spelled(rest)[0] == ' ');
        assert(s.skip(e)[0] == s[e]);
    } else {
        assert(spelled(rest).len() == 0);
    }
}

/// Nothing stands at the end.
proof fn lemma_end(s: Seq<char>, i: int)
    requires
        reads(s, i, Seq::empty()),
    ensures
        i == s.len(),
        skipped(s, i) == i,
{
    assert(spelled(Seq::empty()).len() == 0);
    assert(s.skip(i).len() == s.len() - i);
}

/// A token of one class is read whole.
proof fn lemma_word(s: Seq<char>, i: int, tok: Seq<char>, rest: Seq<Seq<char>>, class: Class)
    requires
        reads(s, i, seq![tok] + rest),
        is_token(tok),
        class != Class::Space,
        class != Class::Quoted,
    ensures
        (forall|k: int| 0 <= k < tok.len() ==> is_in(#[trigger] tok[k], class)) ==> word_at(
            s,
            i,
            class,
        ) == Some((tok, end_of(i, tok))),
        !is_in(tok[0], class) ==> word_at(s, i, class) is None,
{
    lemma_token(s, i, tok, rest);
    let e = end_of(i, tok);
    assert(s[i + 1] == tok[0]);
    if forall|k: int| 0 <= k < tok.len() ==> is_in(#[trigger] tok[k], class) {
        assert forall|k: int| i + 1 <= k < e implies is_in(#[trigger] s[k], class) by {
            assert(s[i + 1 + (k - i - 1)] == tok[k - i - 1]);
        }
        lemma_run(s, i + 1, e, class);
    }
}

/// Whether a token does not begin with a keyword.
pub open spec fn is_clear_of(tok: Seq<char>, word: Seq<char>) -> bool {
    !(word.len() <= tok.len() && same_word(tok.take(word.len() as int), word) && (word.len()
        == tok.len() || !is_word(tok[word.len() as int])))
}

/// Whether a keyword is made of small letters.
pub open spec fn is_keyword(word: Seq<char>) -> bool {
    word.len() > 0 && forall|k: int| 0 <= k < word.len() ==> 'a' <= #[trigger] word[k] <= 'z'
}

/// A keyword is read where it stands, and nowhere else.
proof fn lemma_keyword(
    s: Seq<char>,
    i: int,
    tok: Seq<char>,
    rest: Seq<Seq<char>>,
    word: Seq<char>,
)
    requires
        reads(s, i, seq![tok] + rest),
        is_token(tok),
        is_keyword(word),
    ensures
        same_word(tok, word) ==> keyword_at(s, i, word) == Some(end_of(i, tok)),
        is_clear_of(tok, word) ==> keyword_at(s, i, word) is None,
{
    lemma_token(s, i, tok, rest);
    let j = i + 1;
    let e = j + word.len();
    if is_clear_of(tok, word) && e <= s.len() {
        let found = s.subrange(j, e);
        if same_word(found, word) {
            if word.len() > tok.len() {
                assert(found[tok.len() as int] == ' ');
                assert(lower(found[tok.len() as int]) == lower(word[tok.len() as int]));
                assert('a' <= word[tok.len() as int] <= 'z');
            } else {
                assert(found =~= tok.take(word.len() as int)) by {
                    assert forall|k: int| 0 <= k < word.len() implies found[k] == tok[k] by {
                        assert(s[i + 1 + k] == tok[k]);
                    }
                }
                if word.len() < tok.len() {
                    assert(s[i + 1 + word.len()] == tok[word.len() as int]);
                }
            }
        }
    }
    if same_word(tok, word) {
        assert(s.subrange(j, e) == tok);
    }
}

proof fn lemma_no_keyword_at_end(s: Seq<char>, i: int, word: Seq<char>)
    requires
        reads(s, i, Seq::empty()),
        word.len() > 0,
    ensures
        keyword_at(s, i, word) is None,
{
    lemma_end(s, i);
}

/// A sign is read where it stands, and nowhere else.
proof fn lemma_symbol(s: Seq<char>, i: int, tok: Seq<char>, rest: Seq<Seq<char>>, c: char)
    requires
        reads(s, i, seq![tok] + rest),
        is_token(tok),
    ensures
        tok == seq![c] ==> symbol_at(s, i, c) == Some(end_of(i, tok)),
        tok[0] != c ==> symbol_at(s, i, c) is None,
{
    lemma_token(s, i, tok, rest);
    assert(s[i + 1] == tok[0]);
}

proof fn lemma_no_symbol_at_end(s: Seq<char>, i: int, c: char)
    requires
        reads(s, i, Seq::empty()),
    ensures
        symbol_at(s, i, c) is None,
{
    lemma_end(s, i);
}

/// How a comparison is written.
pub open spec fn op_text(op: Op) -> Seq<char> {
    match op {
        Op::Eq => seq!['='],
        Op::Lt => seq!['<'],
        Op::Le => seq!['<', '='],
        Op::Gt => seq!['>'],
        Op::Ge => seq!['>', '='],
        Op::NotEq => Seq::empty(),
    }
}

proof fn lemma_op(s: Seq<char>, i: int, op: Op, rest: Seq<Seq<char>>)
    requires
        reads(s, i, seq![op_text(op)] + rest),
        op != Op::NotEq,
    ensures
        op_at(s, i) == Some((op, end_of(i, op_text(op)))),
{
    let tok = op_text(op);
    lemma_token(s, i, tok, rest);
    assert(s[i + 1] == tok[0]);
    if tok.len() == 2 {
        assert(s[i + 1 + 1] == tok[1]);
    }
}

/// How a literal is written: text in quotes, an integer as a numeral.
pub open spec fn literal_text(v: ValueView) -> Seq<char> {
    match v {
        ValueView::Str(t) => quoted(t),
        ValueView::I64(n) => numeral_text(n as int),
        _ => Seq::empty(),
    }
}

/// Whether a value can be written as a literal.
pub open spec fn is_literal(v: ValueView) -> bool {
    match v {
        ValueView::Str(t) => is_quotable(t),
        ValueView::I64(n) => true,
        _ => false,
    }
}

proof fn lemma_ascii(b: Seq<u8>)
    requires
        forall|k: int| 0 <= k < b.len() ==> #[trigger] b[k] < 128,
    ensures
        ascii_bytes(ascii_chars(b)) == b,
{
    assert(ascii_bytes(ascii_chars(b)) =~= b);
}

/// The characters of a numeral.
proof fn lemma_numeral_chars(n: int)
    ensures
        numeral(n).len() > 0,
        forall|k: int|
            0 <= k < numeral(n).len() ==> (0x30 <= #[trigger] numeral(n)[k] <= 0x39) || (k == 0
                && n < 0 && numeral(n)[k] == 0x2d),
        forall|k: int|
            0 <= k < numeral_text(n).len() ==> is_in(#[trigger] numeral_text(n)[k], Class::Integer),
        n >= 0 ==> forall|k: int|
            0 <= k < numeral_text(n).len() ==> is_in(#[trigger] numeral_text(n)[k], Class::Digit),
        is_token(numeral_text(n)),
        numeral_text(n).len() == numeral(n).len(),
        ascii_bytes(numeral_text(n)) == numeral(n),
{
    let b = numeral(n);
    let m = if n < 0 {
        (-n) as nat
    } else {
        n as nat
    };
    lemma_digits_spell(m);
    let d = digits_of(m);
    assert forall|k: int| 0 <= k < b.len() implies (0x30 <= #[trigger] b[k] <= 0x39) || (k == 0 && n
        < 0 && b[k] == 0x2d) by {
        if n < 0 {
            if k > 0 {
                assert(b[k] == d[k - 1]);
            }
        } else {
            assert(b[k] == d[k]);
        }
    }
    lemma_ascii(b);
    let t = numeral_text(n);
    assert forall|k: int| 0 <= k < t.len() implies is_in(#[trigger] t[k], Class::Integer) && (n >= 0
        ==> is_in(t[k], Class::Digit)) by {
        assert(t[k] == b[k] as char);
    }
    assert(is_in(t[0], Class::Integer));
}

proof fn lemma_integer(s: Seq<char>, i: int, n: i64, rest: Seq<Seq<char>>)
    requires
        reads(s, i, seq![numeral_text(n as int)] + rest),
    ensures
        integer_at(s, i) == Some((n, end_of(i, numeral_text(n as int)))),
{
    lemma_numeral_chars(n as int);
    lemma_word(s, i, numeral_text(n as int), rest, Class::Integer);
    law_numerals_read_back(n);
}

proof fn lemma_count(s: Seq<char>, i: int, n: u64, rest: Seq<Seq<char>>)
    requires
        reads(s, i, seq![numeral_text(n as int)] + rest),
    ensures
        count_at(s, i) == Some((n, end_of(i, numeral_text(n as int)))),
{
    lemma_numeral_chars(n as int);
    lemma_word(s, i, numeral_text(n as int), rest, Class::Digit);
    lemma_digits_spell(n as nat);
    assert(numeral(n as int)[0] != 0x2b);
}

/// Text in quotes.
pub open spec fn quoted(t: Seq<char>) -> Seq<char> {
    seq!['\''] + t + seq!['\'']
}

/// Whether text can stand in quotes.
pub open spec fn is_quotable(t: Seq<char>) -> bool {
    forall|k: int| 0 <= k < t.len() ==> #[trigger] t[k] != '\''
}

proof fn lemma_quoted(s: Seq<char>, i: int, t: Seq<char>, rest: Seq<Seq<char>>)
    requires
        reads(s, i, seq![quoted(t)] + rest),
        is_quotable(t),
    ensures
        string_at(s, i) == Some((t, end_of(i, quoted(t)))),
        is_token(quoted(t)),
        quoted(t)[0] == '\'',
{
    let tok = quoted(t);
    assert(tok[0] == '\'');
    lemma_token(s, i, tok, rest);
    let j = i + 2;
    let e = j + t.len();
    assert(s[i + 1] == tok[0]);
    assert forall|k: int| j <= k < e implies is_in(#[trigger] s[k], Class::Quoted) by {
        assert(s[i + 1 + (k - i - 1)] == tok[k - i - 1]);
        assert(tok[k - i - 1] == t[k - j]);
    }
    assert(s[i + 1 + (1 + t.len())] == tok[1 + t.len() as int]);
    assert(tok[1 + t.len() as int] == '\'');
    lemma_run(s, j, e, Class::Quoted);
    assert(s.subrange(j, e) =~= t) by {
        assert forall|k: int| 0 <= k < t.len() implies s[j + k] == t[k] by {
            assert(s[i + 1 + (k + 1)] == tok[k + 1]);
        }
    }
}

proof fn lemma_literal(s: Seq<char>, i: int, v: ValueView, rest: Seq<Seq<char>>)
    requires
        reads(s, i, seq![literal_text(v)] + rest),
        is_literal(v),
    ensures
        literal_at(s, i) == Some((v, end_of(i, literal_text(v)))),
{
    let tok = literal_text(v);
    match v {
        ValueView::Str(t) => {
            lemma_quoted(s, i, t, rest);
        },
        ValueView::I64(n) => {
            lemma_numeral_chars(n as int);
            assert(is_in(tok[0], Class::Integer));
            lemma_symbol(s, i, tok, rest, '\'');
            lemma_integer(s, i, n, rest);
        },
        _ => {},
    }
}

// ---- keywords ----

/// Keywords that differ in a letter or in length are told apart.
proof fn lemma_differ(tok: Seq<char>, word: Seq<char>, k: int)
    requires
        is_keyword(tok),
        is_keyword(word),
        tok.len() != word.len() || (0 <= k < tok.len() && tok[k] != word[k]),
    ensures
        is_clear_of(tok, word),
{
    if word.len() <= tok.len() && same_word(tok.take(word.len() as int), word) {
        if word.len() < tok.len() {
            assert('a' <= tok[word.len() as int] <= 'z');
        } else {
            assert(tok.take(word.len() as int) =~= tok);
            assert(lower(tok[k]) == lower(word[k]));
            assert('a' <= tok[k] <= 'z' && 'a' <= word[k] <= 'z');
        }
    }
}

proof fn lemma_same(word: Seq<char>)
    requires
        is_keyword(word),
    ensures
        same_word(word, word),
        is_token(word),
{
    assert('a' <= word[0] <= 'z');
}

/// The keywords of clauses.
proof fn lemma_clause_words()
    ensures
        is_keyword("join"@) && "join"@.len() == 4 && "join"@[0] == 'j',
        is_keyword("where"@) && "where"@.len() == 5 && "where"@[0] == 'w',
        is_keyword("group"@) && "group"@.len() == 5 && "group"@[0] == 'g',
        is_keyword("order"@) && "order"@.len() == 5 && "order"@[0] == 'o',
        is_keyword("limit"@) && "limit"@.len() == 5 && "limit"@[0] == 'l',
        is_keyword("and"@) && "and"@.len() == 3,
        is_keyword("desc"@) && "desc"@.len() == 4 && "desc"@[0] == 'd',
        is_keyword("asc"@) && "asc"@.len() == 3 && "asc"@[0] == 'a',
        is_keyword("by"@) && is_keyword("on"@) && is_keyword("from"@),
        is_keyword("tumble"@) && is_keyword("distinct"@) && is_keyword("select"@),
{
    reveal_strlit("join");
    reveal_strlit("where");
    reveal_strlit("group");
    reveal_strlit("order");
    reveal_strlit("limit");
    reveal_strlit("and");
    reveal_strlit("desc");
    reveal_strlit("asc");
    reveal_strlit("by");
    reveal_strlit("on");
    reveal_strlit("from");
    reveal_strlit("tumble");
    reveal_strlit("distinct");
    reveal_strlit("select");
}

/// The keywords of aggregates.
proof fn lemma_aggregate_words()
    ensures
        is_keyword("count"@) && "count"@.len() == 5,
        is_keyword("sum"@) && "sum"@.len() == 3 && "sum"@[0] == 's',
        is_keyword("avg"@) && "avg"@.len() == 3 && "avg"@[0] == 'a',
        is_keyword("min"@) && "min"@.len() == 3 && "min"@[0] == 'm' && "min"@[1] == 'i',
        is_keyword("max"@) && "max"@.len() == 3 && "max"@[0] == 'm' && "max"@[1] == 'a',
{
    reveal_strlit("count");
    reveal_strlit("sum");
    reveal_strlit("avg");
    reveal_strlit("min");
    reveal_strlit("max");
}

// ---- parts ----

/// Whether text is a name: letters, digits and underscores.
pub open spec fn is_name(n: Seq<char>) -> bool {
    n.len() > 0 && forall|k: int| 0 <= k < n.len() ==> is_word(#[trigger] n[k])
}

/// Whether text is a column reference: a name, perhaps with dots in it.
pub open spec fn is_reference(n: Seq<char>) -> bool {
    n.len() > 0 && forall|k: int| 0 <= k < n.len() ==> is_in(#[trigger] n[k], Class::Reference)
}

proof fn lemma_name(n: Seq<char>)
    requires
        is_reference(n) || is_name(n),
    ensures
        is_token(n),
        is_reference(n),
        n[0] != ',' && n[0] != '*' && n[0] != '(' && n[0] != ')',
{
    if is_name(n) {
        assert forall|k: int| 0 <= k < n.len() implies is_in(#[trigger] n[k], Class::Reference) by {
            assert(is_word(n[k]));
        }
    }
    assert(is_in(n[0], Class::Reference));
}

/// Something that can be written: its tokens, and that it is read back from them.
pub trait Written: Part {
    spec fn toks(v: <Self::Out as View>::V) -> Seq<Seq<char>>;

    /// Whether it can be written.
    spec fn is_fine(v: <Self::Out as View>::V) -> bool;

    proof fn reads_back(
        s: Seq<char>,
        i: int,
        v: <Self::Out as View>::V,
        rest: Seq<Seq<char>>,
    ) -> (e: int)
        requires
            Self::is_fine(v),
            reads(s, i, Self::toks(v) + rest),
        ensures
            Self::at(s, i) == Some((v, e)),
            reads(s, e, rest),
    ;
}

impl Written for IdentPart {
    open spec fn toks(v: Seq<char>) -> Seq<Seq<char>> {
        seq![v]
    }

    open spec fn is_fine(v: Seq<char>) -> bool {
        is_name(v)
    }

    proof fn reads_back(s: Seq<char>, i: int, v: Seq<char>, rest: Seq<Seq<char>>) -> (e: int) {
        lemma_name(v);
        lemma_token(s, i, v, rest);
        lemma_word(s, i, v, rest, Class::Word);
        end_of(i, v)
    }
}

impl Written for CondPart {
    open spec fn toks(v: CondView) -> Seq<Seq<char>> {
        seq![v.field, op_text(v.op), literal_text(v.value)]
    }

    open spec fn is_fine(v: CondView) -> bool {
        is_name(v.field) && v.op != Op::NotEq && is_literal(v.value)
    }

    proof fn reads_back(s: Seq<char>, i: int, v: CondView, rest: Seq<Seq<char>>) -> (e: int) {
        let lit = literal_text(v.value);
        let r2 = seq![lit] + rest;
        let r1 = seq![op_text(v.op)] + r2;
        assert(Self::toks(v) + rest =~= seq![v.field] + r1);
        lemma_name(v.field);
        lemma_token(s, i, v.field, r1);
        lemma_word(s, i, v.field, r1, Class::Word);
        let j = end_of(i, v.field);
        lemma_token(s, j, op_text(v.op), r2);
        lemma_op(s, j, v.op, r2);
        let k = end_of(j, op_text(v.op));
        assert(is_token(lit)) by {
            if let ValueView::I64(n) = v.value {
                lemma_numeral_chars(n as int);
            } else {
                assert(lit[0] == '\'');
            }
        }
        lemma_token(s, k, lit, rest);
        lemma_literal(s, k, v.value, rest);
        end_of(k, lit)
    }
}

/// The tokens of an aggregate.
pub open spec fn call_toks(name: Seq<char>, n: Seq<char>) -> Seq<Seq<char>> {
    seq![name, seq!['('], n, seq![')']]
}

/// Whether a column is not taken for an aggregate.
pub open spec fn is_plain_column(n: Seq<char>) -> bool {
    &&& is_reference(n)
    &&& is_clear_of(n, "count"@)
    &&& is_clear_of(n, "sum"@)
    &&& is_clear_of(n, "avg"@)
    &&& is_clear_of(n, "min"@)
    &&& is_clear_of(n, "max"@)
}

/// The argument of an aggregate in brackets is read.
proof fn lemma_argument(
    s: Seq<char>,
    i: int,
    name: Seq<char>,
    n: Seq<char>,
    rest: Seq<Seq<char>>,
) -> (e: int)
    requires
        is_keyword(name),
        is_reference(n) || n == "*"@,
        reads(s, i, call_toks(name, n) + rest),
    ensures
        keyword_at(s, i, name) == Some(end_of(i, name)),
        is_reference(n) ==> super::sql::argument_at(s, end_of(i, name)) == Some((n, e)),
        super::sql::count_argument_at(s, end_of(i, name)) == Some((n, e)),
        reads(s, e, rest),
{
    reveal_strlit("*");
    let open = seq!['('];
    let close = seq![')'];
    let r3 = seq![close] + rest;
    let r2 = seq![n] + r3;
    let r1 = seq![open] + r2;
    assert(call_toks(name, n) + rest =~= seq![name] + r1);
    lemma_same(name);
    lemma_token(s, i, name, r1);
    lemma_keyword(s, i, name, r1, name);
    let j = end_of(i, name);
    lemma_token(s, j, open, r2);
    lemma_symbol(s, j, open, r2, '(');
    let k = end_of(j, open);
    if is_reference(n) {
        lemma_name(n);
        lemma_word(s, k, n, r3, Class::Reference);
    } else {
        assert(n =~= seq!['*']);
    }
    lemma_token(s, k, n, r3);
    lemma_symbol(s, k, n, r3, '*');
    let m = end_of(k, n);
    lemma_token(s, m, close, rest);
    lemma_symbol(s, m, close, rest, ')');
    end_of(m, close)
}

proof fn lemma_no_keyword(s: Seq<char>, i: int, tok: Seq<char>, rest: Seq<Seq<char>>, word: Seq<char>, k: int)
    requires
        reads(s, i, seq![tok] + rest),
        is_keyword(tok),
        is_keyword(word),
        tok.len() != word.len() || (0 <= k < tok.len() && tok[k] != word[k]),
    ensures
        keyword_at(s, i, word) is None,
{
    lemma_differ(tok, word, k);
    lemma_same(tok);
    lemma_keyword(s, i, tok, rest, word);
}

impl Written for ColExprPart {
    open spec fn toks(v: ColExprView) -> Seq<Seq<char>> {
        match v {
            ColExprView::Col(n) => seq![n],
            ColExprView::Count(n) => call_toks("count"@, n),
            ColExprView::Sum(n) => call_toks("sum"@, n),
            ColExprView::Avg(n) => call_toks("avg"@, n),
            ColExprView::Min(n) => call_toks("min"@, n),
            ColExprView::Max(n) => call_toks("max"@, n),
        }
    }

    open spec fn is_fine(v: ColExprView) -> bool {
        match v {
            ColExprView::Col(n) => is_plain_column(n),
            ColExprView::Count(n) => is_reference(n) || n == "*"@,
            ColExprView::Sum(n) => is_reference(n),
            ColExprView::Avg(n) => is_reference(n),
            ColExprView::Min(n) => is_reference(n),
            ColExprView::Max(n) => is_reference(n),
        }
    }

    proof fn reads_back(s: Seq<char>, i: int, v: ColExprView, rest: Seq<Seq<char>>) -> (e: int) {
        lemma_aggregate_words();
        match v {
            ColExprView::Col(n) => {
                lemma_name(n);
                lemma_token(s, i, n, rest);
                lemma_keyword(s, i, n, rest, "count"@);
                lemma_keyword(s, i, n, rest, "sum"@);
                lemma_keyword(s, i, n, rest, "avg"@);
                lemma_keyword(s, i, n, rest, "min"@);
                lemma_keyword(s, i, n, rest, "max"@);
                lemma_word(s, i, n, rest, Class::Reference);
                end_of(i, n)
            },
            ColExprView::Count(n) => lemma_argument(s, i, "count"@, n, rest),
            ColExprView::Sum(n) => {
                let r = seq![seq!['('], n, seq![')']] + rest;
                assert(call_toks("sum"@, n) + rest =~= seq!["sum"@] + r);
                lemma_no_keyword(s, i, "sum"@, r, "count"@, 0);
                lemma_argument(s, i, "sum"@, n, rest)
            },
            ColExprView::Avg(n) => {
                let r = seq![seq!['('], n, seq![')']] + rest;
                assert(call_toks("avg"@, n) + rest =~= seq!["avg"@] + r);
                lemma_no_keyword(s, i, "avg"@, r, "count"@, 0);
                lemma_no_keyword(s, i, "avg"@, r, "sum"@, 0);
                lemma_argument(s, i, "avg"@, n, rest)
            },
            ColExprView::Min(n) => {
                let r = seq![seq!['('], n, seq![')']] + rest;
                assert(call_toks("min"@, n) + rest =~= seq!["min"@] + r);
                lemma_no_keyword(s, i, "min"@, r, "count"@, 0);
                lemma_no_keyword(s, i, "min"@, r, "sum"@, 0);
                lemma_no_keyword(s, i, "min"@, r, "avg"@, 0);
                lemma_argument(s, i, "min"@, n, rest)
            },
            ColExprView::Max(n) => {
                let r = seq![seq!['('], n, seq![')']] + rest;
                assert(call_toks("max"@, n) + rest =~= seq!["max"@] + r);
                lemma_no_keyword(s, i, "max"@, r, "count"@, 0);
                lemma_no_keyword(s, i, "max"@, r, "sum"@, 0);
                lemma_no_keyword(s, i, "max"@, r, "avg"@, 0);
                lemma_no_keyword(s, i, "max"@, r, "min"@, 1);
                lemma_argument(s, i, "max"@, n, rest)
            },
        }
    }
}

// ---- lists ----

pub open spec fn separator_tok(sep: Separator) -> Seq<char> {
    match sep {
        Separator::Comma => seq![','],
        Separator::And => "and"@,
    }
}

/// The tokens of a list.
pub open spec fn list_toks<P: Written>(vs: Seq<<P::Out as View>::V>, sep: Separator) -> Seq<Seq<char>>
    decreases vs.len(),
{
    if vs.len() == 0 {
        Seq::empty()
    } else if vs.len() == 1 {
        P::toks(vs[0])
    } else {
        P::toks(vs[0]) + (seq![separator_tok(sep)] + list_toks::<P>(vs.skip(1), sep))
    }
}

/// Whether a list ends here.
pub open spec fn ends_list(rest: Seq<Seq<char>>, sep: Separator) -> bool {
    rest.len() == 0 || (is_token(rest[0]) && match sep {
        Separator::Comma => rest[0][0] != ',',
        Separator::And => is_clear_of(rest[0], "and"@),
    })
}

proof fn lemma_list<P: Written>(
    s: Seq<char>,
    i: int,
    vs: Seq<<P::Out as View>::V>,
    sep: Separator,
    rest: Seq<Seq<char>>,
) -> (e: int)
    requires
        vs.len() > 0,
        forall|k: int| 0 <= k < vs.len() ==> P::is_fine(#[trigger] vs[k]),
        reads(s, i, list_toks::<P>(vs, sep) + rest),
        ends_list(rest, sep),
    ensures
        list_at::<P>(s, i, sep) == Some((vs, e)),
        reads(s, e, rest),
    decreases vs.len(),
{
    lemma_clause_words();
    assert(P::is_fine(vs[0]));
    if vs.len() == 1 {
        let j = P::reads_back(s, i, vs[0], rest);
        assert(separator_at(s, j, sep) is None) by {
            if rest.len() == 0 {
                assert(rest =~= Seq::empty());
                lemma_no_keyword_at_end(s, j, "and"@);
                lemma_no_symbol_at_end(s, j, ',');
            } else {
                assert(rest =~= seq![rest[0]] + rest.skip(1));
                match sep {
                    Separator::Comma => {
                        lemma_symbol(s, j, rest[0], rest.skip(1), ',');
                    },
                    Separator::And => {
                        lemma_keyword(s, j, rest[0], rest.skip(1), "and"@);
                    },
                }
            }
        }
        assert(seq![vs[0]] =~= vs);
        j
    } else {
        let more = vs.skip(1);
        let tok = separator_tok(sep);
        let later = list_toks::<P>(more, sep) + rest;
        let r = seq![tok] + later;
        assert(list_toks::<P>(vs, sep) + rest =~= P::toks(vs[0]) + r);
        let j = P::reads_back(s, i, vs[0], r);
        lemma_same("and"@);
        lemma_token(s, j, tok, later);
        match sep {
            Separator::Comma => {
                lemma_symbol(s, j, tok, later, ',');
            },
            Separator::And => {
                lemma_keyword(s, j, tok, later, "and"@);
            },
        }
        let k = end_of(j, tok);
        assert forall|n: int| 0 <= n < more.len() implies P::is_fine(#[trigger] more[n]) by {
            assert(more[n] == vs[n + 1]);
        }
        let e = lemma_list::<P>(s, k, more, sep, rest);
        assert(seq![vs[0]] + more =~= vs);
        P::advances(s, i);
        e
    }
}

// ---- clauses ----

/// Whether what follows is nothing, or begins with a keyword that is not `word`.
pub open spec fn begins_otherwise(rest: Seq<Seq<char>>, word: Seq<char>) -> bool {
    rest.len() == 0 || (is_keyword(rest[0]) && (rest[0].len() != word.len() || rest[0][0]
        != word[0]))
}

proof fn lemma_absent(s: Seq<char>, i: int, rest: Seq<Seq<char>>, word: Seq<char>)
    requires
        reads(s, i, rest),
        is_keyword(word),
        begins_otherwise(rest, word),
    ensures
        keyword_at(s, i, word) is None,
        symbol_at(s, i, '(') is None,
        ends_list(rest, Separator::Comma),
{
    if rest.len() == 0 {
        assert(rest =~= Seq::empty());
        lemma_no_keyword_at_end(s, i, word);
        lemma_no_symbol_at_end(s, i, '(');
    } else {
        let tok = rest[0];
        assert(rest =~= seq![tok] + rest.skip(1));
        lemma_same(tok);
        assert('a' <= tok[0] <= 'z');
        lemma_no_keyword(s, i, tok, rest.skip(1), word, 0);
        lemma_symbol(s, i, tok, rest.skip(1), '(');
    }
}

/// How LIMIT is written.
pub open spec fn limit_toks(limit: Option<usize>) -> Seq<Seq<char>> {
    match limit {
        Some(n) => seq!["limit"@, numeral_text(n as int)],
        None => Seq::empty(),
    }
}

proof fn lemma_limit(s: Seq<char>, i: int, limit: Option<usize>) -> (e: int)
    requires
        reads(s, i, limit_toks(limit)),
    ensures
        limit_at(s, i) == Some((limit, e)),
{
    lemma_clause_words();
    match limit {
        None => {
            lemma_no_keyword_at_end(s, i, "limit"@);
            i
        },
        Some(n) => {
            let t = numeral_text(n as int);
            assert(limit_toks(limit) =~= seq!["limit"@] + seq![t]);
            lemma_same("limit"@);
            lemma_token(s, i, "limit"@, seq![t]);
            lemma_keyword(s, i, "limit"@, seq![t], "limit"@);
            assert(seq![t] =~= seq![t] + Seq::<Seq<char>>::empty());
            lemma_count(s, end_of(i, "limit"@), n as u64, Seq::empty());
            end_of(end_of(i, "limit"@), t)
        },
    }
}

/// How ORDER BY is written; ascending order may be named.
pub open spec fn order_toks(order: Option<(Seq<char>, bool)>, named: bool) -> Seq<Seq<char>> {
    match order {
        Some((col, desc)) => seq!["order"@, "by"@, col] + if desc {
            seq!["desc"@]
        } else if named {
            seq!["asc"@]
        } else {
            Seq::empty()
        },
        None => Seq::empty(),
    }
}

proof fn lemma_order(
    s: Seq<char>,
    i: int,
    order: Option<(Seq<char>, bool)>,
    named: bool,
    rest: Seq<Seq<char>>,
) -> (e: int)
    requires
        reads(s, i, order_toks(order, named) + rest),
        order matches Some((col, desc)) ==> is_name(col),
        begins_otherwise(rest, "order"@),
        begins_otherwise(rest, "desc"@),
        begins_otherwise(rest, "asc"@),
    ensures
        order_at(s, i) == Some((order, e)),
        reads(s, e, rest),
{
    lemma_clause_words();
    match order {
        None => {
            assert(order_toks(order, named) + rest =~= rest);
            lemma_absent(s, i, rest, "order"@);
            i
        },
        Some((col, desc)) => {
            let last = if desc {
                seq!["desc"@]
            } else if named {
                seq!["asc"@]
            } else {
                Seq::empty()
            };
            let r3 = last + rest;
            let r2 = seq![col] + r3;
            let r1 = seq!["by"@] + r2;
            assert(order_toks(order, named) + rest =~= seq!["order"@] + r1);
            lemma_same("order"@);
            lemma_same("by"@);
            lemma_token(s, i, "order"@, r1);
            lemma_keyword(s, i, "order"@, r1, "order"@);
            let j = end_of(i, "order"@);
            lemma_token(s, j, "by"@, r2);
            lemma_keyword(s, j, "by"@, r2, "by"@);
            let k = end_of(j, "by"@);
            lemma_name(col);
            lemma_token(s, k, col, r3);
            lemma_word(s, k, col, r3, Class::Word);
            let m = end_of(k, col);
            if desc {
                assert(r3 =~= seq!["desc"@] + rest);
                lemma_same("desc"@);
                lemma_token(s, m, "desc"@, rest);
                lemma_keyword(s, m, "desc"@, rest, "desc"@);
                end_of(m, "desc"@)
            } else if named {
                assert(r3 =~= seq!["asc"@] + rest);
                lemma_same("asc"@);
                lemma_token(s, m, "asc"@, rest);
                lemma_no_keyword(s, m, "asc"@, rest, "desc"@, 0);
                lemma_keyword(s, m, "asc"@, rest, "asc"@);
                end_of(m, "asc"@)
            } else {
                assert(r3 =~= rest);
                lemma_absent(s, m, rest, "desc"@);
                lemma_absent(s, m, rest, "asc"@);
                m
            }
        },
    }
}

/// How GROUP BY is written.
pub open spec fn group_toks(names: Option<Seq<Seq<char>>>) -> Seq<Seq<char>> {
    match names {
        Some(ns) => seq!["group"@, "by"@] + list_toks::<IdentPart>(ns, Separator::Comma),
        None => Seq::empty(),
    }
}

proof fn lemma_group(
    s: Seq<char>,
    i: int,
    names: Option<Seq<Seq<char>>>,
    rest: Seq<Seq<char>>,
) -> (e: int)
    requires
        reads(s, i, group_toks(names) + rest),
        names matches Some(ns) ==> ns.len() > 0 && forall|k: int|
            0 <= k < ns.len() ==> is_name(#[trigger] ns[k]),
        begins_otherwise(rest, "group"@),
    ensures
        group_at(s, i) == Some((names, e)),
        reads(s, e, rest),
{
    lemma_clause_words();
    match names {
        None => {
            assert(group_toks(names) + rest =~= rest);
            lemma_absent(s, i, rest, "group"@);
            i
        },
        Some(ns) => {
            let r2 = list_toks::<IdentPart>(ns, Separator::Comma) + rest;
            let r1 = seq!["by"@] + r2;
            assert(group_toks(names) + rest =~= seq!["group"@] + r1);
            lemma_same("group"@);
            lemma_same("by"@);
            lemma_token(s, i, "group"@, r1);
            lemma_keyword(s, i, "group"@, r1, "group"@);
            let j = end_of(i, "group"@);
            lemma_token(s, j, "by"@, r2);
            lemma_keyword(s, j, "by"@, r2, "by"@);
            if rest.len() > 0 {
                lemma_same(rest[0]);
                assert('a' <= rest[0][0] <= 'z');
            }
            assert forall|k: int| 0 <= k < ns.len() implies <IdentPart as Written>::is_fine(
                #[trigger] ns[k],
            ) by {
                assert(is_name(ns[k]));
            }
            lemma_list::<IdentPart>(s, end_of(j, "by"@), ns, Separator::Comma, rest)
        },
    }
}

/// How WHERE is written.
pub open spec fn where_toks(conds: Option<Seq<CondView>>) -> Seq<Seq<char>> {
    match conds {
        Some(cs) => seq!["where"@] + list_toks::<CondPart>(cs, Separator::And),
        None => Seq::empty(),
    }
}

proof fn lemma_where(
    s: Seq<char>,
    i: int,
    conds: Option<Seq<CondView>>,
    rest: Seq<Seq<char>>,
) -> (e: int)
    requires
        reads(s, i, where_toks(conds) + rest),
        conds matches Some(cs) ==> cs.len() > 0 && forall|k: int|
            0 <= k < cs.len() ==> <CondPart as Written>::is_fine(#[trigger] cs[k]),
        begins_otherwise(rest, "where"@),
        rest.len() > 0 ==> rest[0].len() == 5,
    ensures
        where_at(s, i) == Some((conds, e)),
        reads(s, e, rest),
{
    lemma_clause_words();
    match conds {
        None => {
            assert(where_toks(conds) + rest =~= rest);
            lemma_absent(s, i, rest, "where"@);
            i
        },
        Some(cs) => {
            let r = list_toks::<CondPart>(cs, Separator::And) + rest;
            assert(where_toks(conds) + rest =~= seq!["where"@] + r);
            lemma_same("where"@);
            lemma_token(s, i, "where"@, r);
            lemma_keyword(s, i, "where"@, r, "where"@);
            if rest.len() > 0 {
                lemma_same(rest[0]);
                lemma_differ(rest[0], "and"@, 0);
            }
            lemma_list::<CondPart>(s, end_of(i, "where"@), cs, Separator::And, rest)
        },
    }
}

/// How the columns of a join are written: as they are, or with their tables, either side first.
pub enum Way {
    Bare,
    LeftFirst,
    RightFirst,
}

/// A column with its table.
pub open spec fn qualified(table: Seq<char>, col: Seq<char>) -> Seq<char> {
    table + seq!['.'] + col
}

/// The two sides of the sign in ON.
pub open spec fn sides(left: Seq<char>, join: JoinView, way: Way) -> (Seq<char>, Seq<char>) {
    match way {
        Way::Bare => (join.left_col, join.right_col),
        Way::LeftFirst => (qualified(left, join.left_col), qualified(join.right, join.right_col)),
        Way::RightFirst => (qualified(join.right, join.right_col), qualified(left, join.left_col)),
    }
}

proof fn lemma_no_dots(n: Seq<char>)
    requires
        is_name(n),
    ensures
        forall|k: int| 0 <= k < n.len() ==> n[k] != '.',
{
    assert forall|k: int| 0 <= k < n.len() implies n[k] != '.' by {
        assert(is_word(n[k]));
    }
}

proof fn lemma_qualified(table: Seq<char>, other: Seq<char>, col: Seq<char>)
    requires
        is_name(table),
        is_name(other),
        is_name(col),
    ensures
        qualified_by(qualified(table, col), other) <==> table == other,
        !qualified_by(col, table),
        bare(qualified(table, col)) == col,
        bare(col) == col,
        is_reference(qualified(table, col)),
{
    let c = qualified(table, col);
    lemma_no_dots(table);
    lemma_no_dots(other);
    lemma_no_dots(col);
    law_qualifiers_are_dropped(table, col);
    let (n, m) = (table.len() as int, other.len() as int);
    assert(c[n] == '.');
    assert(c.take(n) =~= table);
    if qualified_by(c, other) {
        if m < n {
            assert(c[m] == table[m]);
        } else if m > n {
            assert(c.take(m)[n] == other[n]);
        }
    }
    assert forall|k: int| 0 <= k < c.len() implies is_in(#[trigger] c[k], Class::Reference) by {
        if k < n {
            assert(is_word(table[k]));
        } else if k > n {
            assert(c[k] == col[k - n - 1]);
            assert(is_word(col[k - n - 1]));
        }
    }
}

/// A join takes the column of each side from the reference to that side's table, whichever stands
/// first; columns without tables are taken in order.
pub proof fn law_joins_do_not_depend_on_sides(left: Seq<char>, join: JoinView, way: Way)
    requires
        is_name(left),
        is_name(join.right),
        is_name(join.left_col),
        is_name(join.right_col),
        !(way is Bare) ==> left != join.right,
    ensures
        ({
            let (a, b) = sides(left, join, way);
            join_columns(left, join.right, a, b) == (join.left_col, join.right_col)
        }),
{
    let (l, r) = (left, join.right);
    let (x, y) = (join.left_col, join.right_col);
    lemma_qualified(l, r, x);
    lemma_qualified(r, l, y);
    lemma_qualified(l, l, x);
    lemma_qualified(r, r, y);
    lemma_qualified(l, l, y);
    lemma_qualified(r, r, x);
}

/// How JOIN is written.
pub open spec fn join_toks(left: Seq<char>, join: Option<JoinView>, way: Way) -> Seq<Seq<char>> {
    match join {
        Some(j) => seq![
            "join"@,
            j.right,
            "on"@,
            sides(left, j, way).0,
            seq!['='],
            sides(left, j, way).1,
        ],
        None => Seq::empty(),
    }
}

pub open spec fn is_fine_join(left: Seq<char>, join: Option<JoinView>, way: Way) -> bool {
    join matches Some(j) ==> is_name(j.right) && is_name(j.left_col) && is_name(j.right_col) && (!(
    way is Bare) ==> left != j.right)
}

proof fn lemma_join(
    s: Seq<char>,
    i: int,
    left: Seq<char>,
    join: Option<JoinView>,
    way: Way,
    rest: Seq<Seq<char>>,
) -> (e: int)
    requires
        reads(s, i, join_toks(left, join, way) + rest),
        is_name(left),
        is_fine_join(left, join, way),
        begins_otherwise(rest, "join"@),
    ensures
        join_at(s, i, left) == Some((join, e)),
        reads(s, e, rest),
{
    lemma_clause_words();
    match join {
        None => {
            assert(join_toks(left, join, way) + rest =~= rest);
            lemma_absent(s, i, rest, "join"@);
            i
        },
        Some(j) => {
            let (a, b) = sides(left, j, way);
            let sign = op_text(Op::Eq);
            let r5 = seq![b] + rest;
            let r4 = seq![sign] + r5;
            let r3 = seq![a] + r4;
            let r2 = seq!["on"@] + r3;
            let r1 = seq![j.right] + r2;
            assert(join_toks(left, join, way) + rest =~= seq!["join"@] + r1);
            lemma_same("join"@);
            lemma_same("on"@);
            lemma_token(s, i, "join"@, r1);
            lemma_keyword(s, i, "join"@, r1, "join"@);
            let p1 = end_of(i, "join"@);
            lemma_name(j.right);
            lemma_token(s, p1, j.right, r2);
            lemma_word(s, p1, j.right, r2, Class::Word);
            let p2 = end_of(p1, j.right);
            lemma_token(s, p2, "on"@, r3);
            lemma_keyword(s, p2, "on"@, r3, "on"@);
            let p3 = end_of(p2, "on"@);
            lemma_name(j.left_col);
            lemma_name(j.right_col);
            lemma_qualified(left, left, j.left_col);
            lemma_qualified(j.right, j.right, j.right_col);
            lemma_name(a);
            lemma_name(b);
            lemma_token(s, p3, a, r4);
            lemma_word(s, p3, a, r4, Class::Reference);
            let p4 = end_of(p3, a);
            lemma_token(s, p4, sign, r5);
            lemma_op(s, p4, Op::Eq, r5);
            let p5 = end_of(p4, sign);
            lemma_token(s, p5, b, rest);
            lemma_word(s, p5, b, rest, Class::Reference);
            law_joins_do_not_depend_on_sides(left, j, way);
            end_of(p5, b)
        },
    }
}

/// How the clauses behind the source are written.
pub open spec fn clauses_toks(v: SelectView, way: Way, named: bool) -> Seq<Seq<char>> {
    join_toks(v.map, v.join, way) + (where_toks(v.filter) + (group_toks(v.group_by) + (order_toks(
        v.order_by,
        named,
    ) + limit_toks(v.limit))))
}

/// Whether the clauses of a SELECT can be written.
pub open spec fn is_fine_clauses(v: SelectView, way: Way) -> bool {
    &&& is_name(v.map)
    &&& is_fine_join(v.map, v.join, way)
    &&& v.filter matches Some(cs) ==> cs.len() > 0 && forall|k: int|
        0 <= k < cs.len() ==> <CondPart as Written>::is_fine(#[trigger] cs[k])
    &&& v.group_by matches Some(ns) ==> ns.len() > 0 && forall|k: int|
        0 <= k < ns.len() ==> is_name(#[trigger] ns[k])
    &&& v.order_by matches Some((col, desc)) ==> is_name(col)
}

proof fn lemma_clauses(s: Seq<char>, i: int, v: SelectView, way: Way, named: bool)
    requires
        reads(s, i, clauses_toks(v, way, named)),
        is_fine_clauses(v, way),
    ensures
        clauses_at(s, i, v.map) == Some((v.join, v.filter, v.group_by, v.order_by, v.limit)),
{
    lemma_clause_words();
    let t5 = limit_toks(v.limit);
    let t4 = order_toks(v.order_by, named) + t5;
    let t3 = group_toks(v.group_by) + t4;
    let t2 = where_toks(v.filter) + t3;
    assert(t5.len() == 0 || t5[0] == "limit"@);
    assert(t4.len() == 0 || t4[0] == "order"@ || t4[0] == "limit"@) by {
        if v.order_by is None {
            assert(t4 =~= t5);
        }
    }
    assert(t3.len() == 0 || t3[0] == "group"@ || t3[0] == "order"@ || t3[0] == "limit"@) by {
        if v.group_by is None {
            assert(t3 =~= t4);
        }
    }
    assert(t2.len() == 0 || t2[0] == "where"@ || t2[0] == "group"@ || t2[0] == "order"@ || t2[0]
        == "limit"@) by {
        if v.filter is None {
            assert(t2 =~= t3);
        }
    }
    if v.join is None {
        assert(clauses_toks(v, way, named) =~= t2);
    }
    let j = lemma_join(s, i, v.map, v.join, way, t2);
    let k = lemma_where(s, j, v.filter, t3);
    let m = lemma_group(s, k, v.group_by, t4);
    let n = lemma_order(s, m, v.order_by, named, t5);
    let e = lemma_limit(s, n, v.limit);
}

// ---- statements ----

/// How the source of a SELECT is written.
pub open spec fn source_toks(map: Seq<char>, window: Option<WindowView>) -> Seq<Seq<char>> {
    match window {
        Some(w) => seq![
            "tumble"@,
            seq!['('],
            map,
            seq![','],
            w.ts_col,
            seq![','],
            numeral_text(w.size as int),
            seq![')'],
        ],
        None => seq![map],
    }
}

proof fn lemma_name_clear(n: Seq<char>, word: Seq<char>)
    requires
        is_name(n),
        !same_word(n, word),
    ensures
        is_clear_of(n, word),
{
    if word.len() < n.len() {
        assert(is_word(n[word.len() as int]));
    } else if word.len() == n.len() {
        assert(n.take(word.len() as int) =~= n);
    }
}

proof fn lemma_source(
    s: Seq<char>,
    i: int,
    map: Seq<char>,
    window: Option<WindowView>,
    rest: Seq<Seq<char>>,
) -> (e: int)
    requires
        reads(s, i, source_toks(map, window) + rest),
        is_name(map),
        window matches Some(w) ==> is_name(w.ts_col) && w.size > 0,
        begins_otherwise(rest, "tumble"@),
    ensures
        source_at(s, i) == Some(((map, window), e)),
        reads(s, e, rest),
{
    lemma_clause_words();
    lemma_name(map);
    match window {
        None => {
            lemma_token(s, i, map, rest);
            lemma_word(s, i, map, rest, Class::Word);
            lemma_keyword(s, i, map, rest, "tumble"@);
            lemma_absent(s, end_of(i, map), rest, "tumble"@);
            if !same_word(map, "tumble"@) {
                lemma_name_clear(map, "tumble"@);
            }
            end_of(i, map)
        },
        Some(w) => {
            let size = numeral_text(w.size as int);
            let open = seq!['('];
            let close = seq![')'];
            let comma = seq![','];
            let r7 = seq![close] + rest;
            let r6 = seq![size] + r7;
            let r5 = seq![comma] + r6;
            let r4 = seq![w.ts_col] + r5;
            let r3 = seq![comma] + r4;
            let r2 = seq![map] + r3;
            let r1 = seq![open] + r2;
            assert(source_toks(map, window) + rest =~= seq!["tumble"@] + r1);
            lemma_same("tumble"@);
            lemma_token(s, i, "tumble"@, r1);
            lemma_keyword(s, i, "tumble"@, r1, "tumble"@);
            let p1 = end_of(i, "tumble"@);
            lemma_token(s, p1, open, r2);
            lemma_symbol(s, p1, open, r2, '(');
            let p2 = end_of(p1, open);
            lemma_token(s, p2, map, r3);
            lemma_word(s, p2, map, r3, Class::Word);
            let p3 = end_of(p2, map);
            lemma_token(s, p3, comma, r4);
            lemma_symbol(s, p3, comma, r4, ',');
            let p4 = end_of(p3, comma);
            lemma_name(w.ts_col);
            lemma_token(s, p4, w.ts_col, r5);
            lemma_word(s, p4, w.ts_col, r5, Class::Word);
            let p5 = end_of(p4, w.ts_col);
            lemma_token(s, p5, comma, r6);
            lemma_symbol(s, p5, comma, r6, ',');
            let p6 = end_of(p5, comma);
            lemma_numeral_chars(w.size as int);
            lemma_token(s, p6, size, r7);
            lemma_integer(s, p6, w.size, r7);
            let p7 = end_of(p6, size);
            lemma_token(s, p7, close, rest);
            lemma_symbol(s, p7, close, rest, ')');
            end_of(p7, close)
        },
    }
}

/// How the columns of a SELECT are written.
pub open spec fn columns_toks(v: SelectView) -> Seq<Seq<char>> {
    if v.star {
        seq![seq!['*']]
    } else {
        list_toks::<ColExprPart>(v.cols, Separator::Comma)
    }
}

pub open spec fn distinct_toks(is_distinct: bool) -> Seq<Seq<char>> {
    if is_distinct {
        seq!["distinct"@]
    } else {
        Seq::empty()
    }
}

/// How a SELECT is written, from behind its first word on.
pub open spec fn select_toks(v: SelectView, way: Way, named: bool) -> Seq<Seq<char>> {
    distinct_toks(v.is_distinct) + (columns_toks(v) + (seq!["from"@] + (source_toks(v.map, v.window)
        + clauses_toks(v, way, named))))
}

/// Whether a SELECT can be written: its names are names, its columns are told from aggregates and
/// from DISTINCT, its literals have no quotes in them, and none of its lists is empty.
pub open spec fn is_fine_select(v: SelectView, way: Way) -> bool {
    &&& is_fine_clauses(v, way)
    &&& v.star ==> v.cols.len() == 0
    &&& !v.star ==> v.cols.len() > 0 && forall|k: int|
        0 <= k < v.cols.len() ==> <ColExprPart as Written>::is_fine(#[trigger] v.cols[k])
    &&& !v.is_distinct && !v.star ==> (v.cols[0] matches ColExprView::Col(n) ==> is_clear_of(
        n,
        "distinct"@,
    ))
    &&& v.window matches Some(w) ==> is_name(w.ts_col) && w.size > 0
}

proof fn lemma_columns(s: Seq<char>, i: int, v: SelectView, rest: Seq<Seq<char>>) -> (e: int)
    requires
        reads(s, i, columns_toks(v) + rest),
        v.star ==> v.cols.len() == 0,
        !v.star ==> v.cols.len() > 0 && forall|k: int|
            0 <= k < v.cols.len() ==> <ColExprPart as Written>::is_fine(#[trigger] v.cols[k]),
        rest.len() > 0 && is_keyword(rest[0]),
    ensures
        columns_at(s, i) == Some(((v.star, v.cols), e)),
        reads(s, e, rest),
{
    lemma_same(rest[0]);
    assert('a' <= rest[0][0] <= 'z');
    if v.star {
        let star = seq!['*'];
        lemma_token(s, i, star, rest);
        lemma_symbol(s, i, star, rest, '*');
        assert(v.cols =~= Seq::empty());
        end_of(i, star)
    } else {
        let first = lemma_first_column(v.cols);
        let all = list_toks::<ColExprPart>(v.cols, Separator::Comma) + rest;
        assert(all =~= seq![first] + all.skip(1));
        lemma_symbol(s, i, first, all.skip(1), '*');
        lemma_list::<ColExprPart>(s, i, v.cols, Separator::Comma, rest)
    }
}

/// The first token of columns.
proof fn lemma_first_column(cols: Seq<ColExprView>) -> (tok: Seq<char>)
    requires
        cols.len() > 0,
        <ColExprPart as Written>::is_fine(cols[0]),
    ensures
        list_toks::<ColExprPart>(cols, Separator::Comma).len() > 0,
        list_toks::<ColExprPart>(cols, Separator::Comma)[0] == tok,
        is_token(tok),
        tok[0] != '*',
        cols[0] matches ColExprView::Col(n) ==> tok == n,
        !(cols[0] is Col) ==> is_clear_of(tok, "distinct"@),
{
    lemma_aggregate_words();
    lemma_clause_words();
    reveal_strlit("distinct");
    let toks = <ColExprPart as Written>::toks(cols[0]);
    let tok = toks[0];
    if let ColExprView::Col(n) = cols[0] {
        lemma_name(n);
    } else {
        lemma_same(tok);
        lemma_differ(tok, "distinct"@, 0);
        assert('a' <= tok[0] <= 'z');
    }
    tok
}

proof fn lemma_select(s: Seq<char>, i: int, v: SelectView, way: Way, named: bool)
    requires
        reads(s, i, select_toks(v, way, named)),
        is_fine_select(v, way),
    ensures
        select_at(s, i) == Some(v),
{
    lemma_clause_words();
    let r3 = clauses_toks(v, way, named);
    let r2 = source_toks(v.map, v.window) + r3;
    let r1 = seq!["from"@] + r2;
    let r0 = columns_toks(v) + r1;
    lemma_same("from"@);
    lemma_same("distinct"@);
    let i1 = if v.is_distinct {
        assert(select_toks(v, way, named) =~= seq!["distinct"@] + r0);
        lemma_token(s, i, "distinct"@, r0);
        lemma_keyword(s, i, "distinct"@, r0, "distinct"@);
        end_of(i, "distinct"@)
    } else {
        assert(select_toks(v, way, named) =~= r0);
        let tok = if v.star {
            seq!['*']
        } else {
            lemma_first_column(v.cols)
        };
        assert(r0 =~= seq![tok] + r0.skip(1));
        if v.star {
            reveal_strlit("distinct");
            assert(is_clear_of(tok, "distinct"@));
        }
        lemma_keyword(s, i, tok, r0.skip(1), "distinct"@);
        i
    };
    let i2 = lemma_columns(s, i1, v, r1);
    lemma_token(s, i2, "from"@, r2);
    lemma_keyword(s, i2, "from"@, r2, "from"@);
    let i3 = end_of(i2, "from"@);
    assert(begins_otherwise(r3, "tumble"@)) by {
        lemma_clauses_begin(v, way, named);
    }
    let i4 = lemma_source(s, i3, v.map, v.window, r3);
    lemma_clauses(s, i4, v, way, named);
}

proof fn lemma_clauses_begin(v: SelectView, way: Way, named: bool)
    ensures
        begins_otherwise(clauses_toks(v, way, named), "tumble"@),
{
    lemma_clause_words();
    reveal_strlit("tumble");
    let t5 = limit_toks(v.limit);
    let t4 = order_toks(v.order_by, named) + t5;
    let t3 = group_toks(v.group_by) + t4;
    let t2 = where_toks(v.filter) + t3;
    if v.order_by is None {
        assert(t4 =~= t5);
    }
    if v.group_by is None {
        assert(t3 =~= t4);
    }
    if v.filter is None {
        assert(t2 =~= t3);
    }
    if v.join is None {
        assert(clauses_toks(v, way, named) =~= t2);
    }
}

/// A SELECT is read back from its text: its columns and aggregates, its source, its join (whichever
/// way the columns are written), the conditions, the columns of GROUP BY, the column and direction
/// of ORDER BY, and its limit.
pub proof fn law_selects_read_back(v: SelectView, way: Way, named: bool)
    requires
        is_fine_select(v, way),
    ensures
        parsed(spelled(seq!["select"@] + select_toks(v, way, named))) == Some(
            StatementView::Select(v),
        ),
{
    let toks = select_toks(v, way, named);
    let s = spelled(seq!["select"@] + toks);
    lemma_clause_words();
    lemma_same("select"@);
    assert(s.skip(0) =~= s);
    lemma_token(s, 0, "select"@, toks);
    lemma_keyword(s, 0, "select"@, toks, "select"@);
    lemma_select(s, end_of(0, "select"@), v, way, named);
}

// ---- the other statements ----

impl Written for LiteralPart {
    open spec fn toks(v: ValueView) -> Seq<Seq<char>> {
        seq![literal_text(v)]
    }

    open spec fn is_fine(v: ValueView) -> bool {
        is_literal(v)
    }

    proof fn reads_back(s: Seq<char>, i: int, v: ValueView, rest: Seq<Seq<char>>) -> (e: int) {
        let lit = literal_text(v);
        lemma_literal_token(v);
        lemma_token(s, i, lit, rest);
        lemma_literal(s, i, v, rest);
        end_of(i, lit)
    }
}

proof fn lemma_literal_token(v: ValueView)
    requires
        is_literal(v),
    ensures
        is_token(literal_text(v)),
        literal_text(v)[0] != ',' && literal_text(v)[0] != ')',
{
    let lit = literal_text(v);
    if let ValueView::I64(n) = v {
        lemma_numeral_chars(n as int);
        assert(is_in(lit[0], Class::Integer));
    } else {
        assert(lit[0] == '\'');
    }
}

/// The tokens of rows: each in brackets, with commas between them.
pub open spec fn rows_toks(rows: Seq<Seq<ValueView>>) -> Seq<Seq<char>>
    decreases rows.len(),
{
    if rows.len() == 0 {
        Seq::empty()
    } else {
        let row = seq![seq!['(']] + (list_toks::<LiteralPart>(rows[0], Separator::Comma) + seq![
            seq![')'],
        ]);
        if rows.len() == 1 {
            row
        } else {
            row + (seq![seq![',']] + rows_toks(rows.skip(1)))
        }
    }
}

pub open spec fn are_fine_rows(rows: Seq<Seq<ValueView>>) -> bool {
    forall|i: int| 0 <= i < rows.len() ==> is_fine_row(#[trigger] rows[i])
}

pub open spec fn is_fine_row(row: Seq<ValueView>) -> bool {
    row.len() > 0 && forall|k: int| 0 <= k < row.len() ==> is_literal(#[trigger] row[k])
}

proof fn lemma_rows(s: Seq<char>, i: int, rows: Seq<Seq<ValueView>>) -> (e: int)
    requires
        reads(s, i, rows_toks(rows)),
        are_fine_rows(rows),
    ensures
        rows_at(s, i) == Some((rows, e)),
    decreases rows.len(),
{
    if rows.len() == 0 {
        lemma_no_symbol_at_end(s, i, '(');
        assert(rows =~= Seq::empty());
        i
    } else {
        let row = rows[0];
        assert(is_fine_row(rows[0]));
        let open = seq!['('];
        let close = seq![')'];
        let comma = seq![','];
        let later = if rows.len() == 1 {
            Seq::empty()
        } else {
            seq![comma] + rows_toks(rows.skip(1))
        };
        let r2 = seq![close] + later;
        let r1 = list_toks::<LiteralPart>(row, Separator::Comma) + r2;
        assert(rows_toks(rows) =~= seq![open] + r1);
        lemma_token(s, i, open, r1);
        lemma_symbol(s, i, open, r1, '(');
        let j = end_of(i, open);
        assert forall|k: int| 0 <= k < row.len() implies <LiteralPart as Written>::is_fine(
            #[trigger] row[k],
        ) by {
            assert(is_literal(row[k]));
        }
        let k = lemma_list::<LiteralPart>(s, j, row, Separator::Comma, r2);
        lemma_token(s, k, close, later);
        lemma_symbol(s, k, close, later, ')');
        let m = end_of(k, close);
        if rows.len() == 1 {
            lemma_no_symbol_at_end(s, m, ',');
            assert(seq![row] =~= rows);
            m
        } else {
            let more = rows.skip(1);
            lemma_token(s, m, comma, rows_toks(more));
            lemma_symbol(s, m, comma, rows_toks(more), ',');
            assert forall|n: int| 0 <= n < more.len() implies is_fine_row(#[trigger] more[n]) by {
                assert(more[n] == rows[n + 1]);
            }
            let e = lemma_rows(s, end_of(m, comma), more);
            assert(seq![row] + more =~= rows);
            e
        }
    }
}

/// The tokens of a list up to a closing bracket.
pub open spec fn closed_toks<P: Written>(vs: Seq<<P::Out as View>::V>) -> Seq<Seq<char>>
    decreases vs.len(),
{
    if vs.len() == 0 {
        Seq::empty()
    } else if vs.len() == 1 {
        P::toks(vs[0]) + seq![seq![')']]
    } else {
        P::toks(vs[0]) + (seq![seq![',']] + closed_toks::<P>(vs.skip(1)))
    }
}

proof fn lemma_closed<P: Written>(
    s: Seq<char>,
    i: int,
    vs: Seq<<P::Out as View>::V>,
    rest: Seq<Seq<char>>,
) -> (e: int)
    requires
        vs.len() > 0,
        forall|k: int| 0 <= k < vs.len() ==> P::is_fine(#[trigger] vs[k]),
        reads(s, i, closed_toks::<P>(vs) + rest),
    ensures
        closed_at::<P>(s, i) == Some((vs, e)),
        reads(s, e, rest),
    decreases vs.len(),
{
    let close = seq![')'];
    let comma = seq![','];
    assert(P::is_fine(vs[0]));
    if vs.len() == 1 {
        let r = seq![close] + rest;
        assert(closed_toks::<P>(vs) + rest =~= P::toks(vs[0]) + r);
        let j = P::reads_back(s, i, vs[0], r);
        lemma_token(s, j, close, rest);
        lemma_symbol(s, j, close, rest, ')');
        assert(seq![vs[0]] =~= vs);
        end_of(j, close)
    } else {
        let more = vs.skip(1);
        let later = closed_toks::<P>(more) + rest;
        let r = seq![comma] + later;
        assert(closed_toks::<P>(vs) + rest =~= P::toks(vs[0]) + r);
        let j = P::reads_back(s, i, vs[0], r);
        lemma_token(s, j, comma, later);
        lemma_symbol(s, j, comma, later, ')');
        lemma_symbol(s, j, comma, later, ',');
        assert forall|n: int| 0 <= n < more.len() implies P::is_fine(#[trigger] more[n]) by {
            assert(more[n] == vs[n + 1]);
        }
        let e = lemma_closed::<P>(s, end_of(j, comma), more, rest);
        assert(seq![vs[0]] + more =~= vs);
        P::advances(s, i);
        e
    }
}

/// How a column type is written.
pub open spec fn type_text(t: ColType) -> Seq<char> {
    match t {
        ColType::Varchar => "varchar"@,
        ColType::Int => "int"@,
        ColType::Bigint => "bigint"@,
        ColType::Double => "double"@,
        ColType::Boolean => "boolean"@,
    }
}

proof fn lemma_type(t: ColType)
    ensures
        coltype_of(type_text(t)) == t,
        is_keyword(type_text(t)),
        is_name(type_text(t)),
{
    reveal_strlit("varchar");
    reveal_strlit("int");
    reveal_strlit("integer");
    reveal_strlit("bigint");
    reveal_strlit("double");
    reveal_strlit("boolean");
    let w = type_text(t);
    assert(is_keyword(w));
    lemma_same(w);
    assert forall|k: int| 0 <= k < w.len() implies is_word(#[trigger] w[k]) by {
        assert('a' <= w[k] <= 'z');
    }
    assert(lower("bigint"@[0]) != lower("double"@[0]));
    assert(lower("varchar"@[0]) != lower("integer"@[0]));
    assert(lower("varchar"@[0]) != lower("boolean"@[0]));
    assert(lower("boolean"@[0]) != lower("integer"@[0]));
}

impl Written for ColumnPart {
    open spec fn toks(v: (Seq<char>, ColType)) -> Seq<Seq<char>> {
        seq![v.0, type_text(v.1)]
    }

    open spec fn is_fine(v: (Seq<char>, ColType)) -> bool {
        is_name(v.0)
    }

    proof fn reads_back(
        s: Seq<char>,
        i: int,
        v: (Seq<char>, ColType),
        rest: Seq<Seq<char>>,
    ) -> (e: int) {
        let ty = type_text(v.1);
        let r = seq![ty] + rest;
        assert(Self::toks(v) + rest =~= seq![v.0] + r);
        lemma_type(v.1);
        lemma_name(v.0);
        lemma_name(ty);
        lemma_token(s, i, v.0, r);
        lemma_word(s, i, v.0, r, Class::Word);
        let j = end_of(i, v.0);
        lemma_token(s, j, ty, rest);
        lemma_word(s, j, ty, rest, Class::Word);
        end_of(j, ty)
    }
}

impl Written for OptionPart {
    open spec fn toks(v: (Seq<char>, Seq<char>)) -> Seq<Seq<char>> {
        seq![quoted(v.0), seq!['='], quoted(v.1)]
    }

    open spec fn is_fine(v: (Seq<char>, Seq<char>)) -> bool {
        is_quotable(v.0) && is_quotable(v.1)
    }

    proof fn reads_back(
        s: Seq<char>,
        i: int,
        v: (Seq<char>, Seq<char>),
        rest: Seq<Seq<char>>,
    ) -> (e: int) {
        let (a, b) = (quoted(v.0), quoted(v.1));
        let sign = op_text(Op::Eq);
        let r2 = seq![b] + rest;
        let r1 = seq![sign] + r2;
        assert(Self::toks(v) + rest =~= seq![a] + r1);
        lemma_quoted(s, i, v.0, r1);
        lemma_token(s, i, a, r1);
        let j = end_of(i, a);
        lemma_token(s, j, sign, r2);
        lemma_op(s, j, Op::Eq, r2);
        let k = end_of(j, sign);
        lemma_quoted(s, k, v.1, rest);
        lemma_token(s, k, b, rest);
        end_of(k, b)
    }
}

proof fn lemma_statement_words()
    ensures
        is_keyword("insert"@) && "insert"@.len() == 6 && "insert"@[0] == 'i',
        is_keyword("select"@) && "select"@.len() == 6 && "select"@[0] == 's',
        is_keyword("create"@) && "create"@.len() == 6 && "create"@[0] == 'c',
        is_keyword("into"@) && is_keyword("values"@),
        is_keyword("mapping"@) && "mapping"@.len() == 7,
        is_keyword("job"@) && "job"@.len() == 3,
        is_keyword("type"@) && is_keyword("options"@),
        is_keyword("as"@) && is_keyword("sink"@),
{
    reveal_strlit("insert");
    reveal_strlit("select");
    reveal_strlit("create");
    reveal_strlit("into");
    reveal_strlit("values");
    reveal_strlit("mapping");
    reveal_strlit("job");
    reveal_strlit("type");
    reveal_strlit("options");
    reveal_strlit("as");
    reveal_strlit("sink");
}

/// A keyword that stands first is read, and what follows it.
proof fn lemma_first_word(
    s: Seq<char>,
    i: int,
    word: Seq<char>,
    rest: Seq<Seq<char>>,
) -> (e: int)
    requires
        reads(s, i, seq![word] + rest),
        is_keyword(word),
    ensures
        keyword_at(s, i, word) == Some(e),
        reads(s, e, rest),
{
    lemma_same(word);
    lemma_token(s, i, word, rest);
    lemma_keyword(s, i, word, rest, word);
    end_of(i, word)
}

/// A name that stands first is read, and what follows it.
proof fn lemma_first_name(s: Seq<char>, i: int, n: Seq<char>, rest: Seq<Seq<char>>) -> (e: int)
    requires
        reads(s, i, seq![n] + rest),
        is_name(n),
    ensures
        ident_at(s, i) == Some((n, e)),
        reads(s, e, rest),
{
    lemma_name(n);
    lemma_token(s, i, n, rest);
    lemma_word(s, i, n, rest, Class::Word);
    end_of(i, n)
}

/// How the names of columns are written that an INSERT may give.
pub open spec fn names_toks(names: Seq<Seq<char>>) -> Seq<Seq<char>> {
    if names.len() == 0 {
        Seq::empty()
    } else {
        seq![seq!['(']] + closed_toks::<IdentPart>(names)
    }
}

/// An INSERT is read back from its text: the mapping and all rows of values in order. Names of
/// columns may be given, and are passed over.
pub proof fn law_inserts_read_back(v: InsertView, names: Seq<Seq<char>>)
    requires
        is_name(v.mapping),
        are_fine_rows(v.rows),
        forall|k: int| 0 <= k < names.len() ==> is_name(#[trigger] names[k]),
    ensures
        parsed(
            spelled(
                seq!["insert"@, "into"@, v.mapping] + (names_toks(names) + (seq!["values"@]
                    + rows_toks(v.rows))),
            ),
        ) == Some(StatementView::Insert(v)),
{
    lemma_statement_words();
    let open = seq!['('];
    let r4 = rows_toks(v.rows);
    let r3 = seq!["values"@] + r4;
    let r2 = names_toks(names) + r3;
    let r1 = seq![v.mapping] + r2;
    let r0 = seq!["into"@] + r1;
    let toks = seq!["insert"@, "into"@, v.mapping] + r2;
    let s = spelled(toks);
    assert(toks =~= seq!["insert"@] + r0);
    assert(s.skip(0) =~= s);
    lemma_no_keyword(s, 0, "insert"@, r0, "select"@, 0);
    let j = lemma_first_word(s, 0, "insert"@, r0);
    let k = lemma_first_word(s, j, "into"@, r1);
    let m = lemma_first_name(s, k, v.mapping, r2);
    let n = if names.len() == 0 {
        assert(r2 =~= r3);
        lemma_same("values"@);
        assert('a' <= "values"@[0] <= 'z');
        lemma_symbol(s, m, "values"@, r4, '(');
        m
    } else {
        let later = closed_toks::<IdentPart>(names) + r3;
        assert(r2 =~= seq![open] + later);
        lemma_token(s, m, open, later);
        lemma_symbol(s, m, open, later, '(');
        assert forall|k: int| 0 <= k < names.len() implies <IdentPart as Written>::is_fine(
            #[trigger] names[k],
        ) by {
            assert(is_name(names[k]));
        }
        lemma_closed::<IdentPart>(s, end_of(m, open), names, r3)
    };
    let p = lemma_first_word(s, n, "values"@, r4);
    let e = lemma_rows(s, p, v.rows);
}

/// How the declared columns of a mapping are written.
pub open spec fn declared_toks(columns: Seq<(Seq<char>, ColType)>) -> Seq<Seq<char>> {
    if columns.len() == 0 {
        Seq::empty()
    } else {
        seq![seq!['(']] + closed_toks::<ColumnPart>(columns)
    }
}

/// How the options of a mapping are written.
pub open spec fn options_toks(options: Seq<(Seq<char>, Seq<char>)>) -> Seq<Seq<char>> {
    if options.len() == 0 {
        Seq::empty()
    } else {
        seq!["options"@, seq!['(']] + closed_toks::<OptionPart>(options)
    }
}

proof fn lemma_declared(
    s: Seq<char>,
    i: int,
    columns: Seq<(Seq<char>, ColType)>,
    rest: Seq<Seq<char>>,
) -> (e: int)
    requires
        reads(s, i, declared_toks(columns) + (seq!["type"@] + rest)),
        forall|k: int| 0 <= k < columns.len() ==> is_name((#[trigger] columns[k]).0),
    ensures
        declared_at(s, i) == Some((columns, e)),
        reads(s, e, seq!["type"@] + rest),
{
    lemma_statement_words();
    let open = seq!['('];
    let r = seq!["type"@] + rest;
    if columns.len() == 0 {
        assert(declared_toks(columns) + r =~= r);
        lemma_same("type"@);
        assert('a' <= "type"@[0] <= 'z');
        lemma_symbol(s, i, "type"@, rest, '(');
        assert(columns =~= Seq::empty());
        i
    } else {
        let later = closed_toks::<ColumnPart>(columns) + r;
        assert(declared_toks(columns) + r =~= seq![open] + later);
        lemma_token(s, i, open, later);
        lemma_symbol(s, i, open, later, '(');
        assert forall|k: int| 0 <= k < columns.len() implies <ColumnPart as Written>::is_fine(
            #[trigger] columns[k],
        ) by {
            assert(is_name(columns[k].0));
        }
        lemma_closed::<ColumnPart>(s, end_of(i, open), columns, r)
    }
}

proof fn lemma_options_read(s: Seq<char>, i: int, options: Seq<(Seq<char>, Seq<char>)>)
    requires
        reads(s, i, options_toks(options)),
        forall|k: int|
            0 <= k < options.len() ==> is_quotable((#[trigger] options[k]).0) && is_quotable(
                options[k].1,
            ),
    ensures
        options_at(s, i) == Some(options),
{
    lemma_statement_words();
    let open = seq!['('];
    if options.len() == 0 {
        lemma_no_keyword_at_end(s, i, "options"@);
        assert(options =~= Seq::empty());
    } else {
        let later = closed_toks::<OptionPart>(options) + Seq::<Seq<char>>::empty();
        assert(options_toks(options) =~= seq!["options"@] + (seq![open] + later));
        let t = lemma_first_word(s, i, "options"@, seq![open] + later);
        lemma_token(s, t, open, later);
        lemma_symbol(s, t, open, later, '(');
        assert forall|k: int| 0 <= k < options.len() implies <OptionPart as Written>::is_fine(
            #[trigger] options[k],
        ) by {
            assert(is_quotable(options[k].0));
        }
        let e = lemma_closed::<OptionPart>(s, end_of(t, open), options, Seq::empty());
    }
}

/// A CREATE MAPPING is read back from its text: its name, its columns with their types in order,
/// its kind, and its options, of which the last of a name counts. The kind is a topic if it is named
/// `kafka`, in any case, and else a map.
pub proof fn law_mappings_read_back(
    name: Seq<char>,
    columns: Seq<(Seq<char>, ColType)>,
    kind: Seq<char>,
    options: Seq<(Seq<char>, Seq<char>)>,
)
    requires
        is_name(name),
        forall|k: int| 0 <= k < columns.len() ==> is_name((#[trigger] columns[k]).0),
        is_name(kind),
        forall|k: int|
            0 <= k < options.len() ==> is_quotable((#[trigger] options[k]).0) && is_quotable(
                options[k].1,
            ),
    ensures
        parsed(
            spelled(
                seq!["create"@, "mapping"@, name] + (declared_toks(columns) + (seq!["type"@, kind]
                    + options_toks(options))),
            ),
        ) matches Some(StatementView::CreateMapping(v)) && v.name == name && v.columns == columns
            && v.kind == (if same_word(kind, "kafka"@) {
            MappingKind::Kafka
        } else {
            MappingKind::Imap
        }) && is_last_of_each(v.options, options),
{
    lemma_statement_words();
    let r5 = options_toks(options);
    let r4 = seq![kind] + r5;
    let r3 = seq!["type"@] + r4;
    let r2 = declared_toks(columns) + r3;
    let r1 = seq![name] + r2;
    let r0 = seq!["mapping"@] + r1;
    let toks = seq!["create"@, "mapping"@, name] + (declared_toks(columns) + (seq!["type"@, kind]
        + r5));
    let s = spelled(toks);
    assert(seq!["type"@, kind] + r5 =~= r3);
    assert(toks =~= seq!["create"@] + r0);
    assert(s.skip(0) =~= s);
    lemma_no_keyword(s, 0, "create"@, r0, "select"@, 0);
    lemma_no_keyword(s, 0, "create"@, r0, "insert"@, 0);
    let j = lemma_first_word(s, 0, "create"@, r0);
    let k = lemma_first_word(s, j, "mapping"@, r1);
    let m = lemma_first_name(s, k, name, r2);
    let n = lemma_declared(s, m, columns, r4);
    let p = lemma_first_word(s, n, "type"@, r4);
    let q = lemma_first_name(s, p, kind, r5);
    lemma_options_read(s, q, options);
    lemma_options(options);
}

/// Whether a table holds each name that options give, with the last value given for it, and no
/// other name.
#[verifier::opaque]
pub open spec fn is_last_of_each(
    table: Map<Seq<char>, Seq<char>>,
    options: Seq<(Seq<char>, Seq<char>)>,
) -> bool {
    &&& forall|n: Seq<char>| #[trigger]
        table.contains_key(n) <==> exists|i: int|
            0 <= i < options.len() && (#[trigger] options[i]).0 == n
    &&& forall|i: int|
        0 <= i < options.len() && (forall|j: int|
            i < j < options.len() ==> (#[trigger] options[j]).0 != options[i].0)
            ==> table[(#[trigger] options[i]).0] == options[i].1
}

proof fn lemma_options(options: Seq<(Seq<char>, Seq<char>)>)
    ensures
        is_last_of_each(options_map(options), options),
    decreases options.len(),
{
    reveal(is_last_of_each);
    let table = options_map(options);
    if options.len() > 0 {
        let rest = options.drop_last();
        let last = options.last();
        let n = options.len() - 1;
        lemma_options(rest);
        let before = options_map(rest);
        assert(options[n] == last);
        assert forall|x: Seq<char>| #[trigger] table.contains_key(x) <==> exists|i: int|
            0 <= i < options.len() && (#[trigger] options[i]).0 == x by {
            if before.contains_key(x) {
                let i = choose|i: int| 0 <= i < rest.len() && (#[trigger] rest[i]).0 == x;
                assert(options[i] == rest[i]);
            }
            if exists|i: int| 0 <= i < options.len() && (#[trigger] options[i]).0 == x {
                let i = choose|i: int| 0 <= i < options.len() && (#[trigger] options[i]).0 == x;
                if i < n {
                    assert(rest[i] == options[i]);
                    assert(before.contains_key(x));
                }
            }
        }
        assert forall|i: int|
            0 <= i < options.len() && (forall|j: int|
                i < j < options.len() ==> (#[trigger] options[j]).0 != options[i].0) implies table[(
        #[trigger] options[i]).0] == options[i].1 by {
            if i < n {
                assert(options[n].0 != options[i].0);
                assert(rest[i] == options[i]);
                assert forall|j: int| i < j < rest.len() implies (#[trigger] rest[j]).0
                    != rest[i].0 by {
                    assert(options[j] == rest[j]);
                }
            }
        }
    }
}

/// A CREATE JOB is read back from its text: its name, the sink that it writes to, and its SELECT.
pub proof fn law_jobs_read_back(
    name: Seq<char>,
    sink: Seq<char>,
    v: SelectView,
    way: Way,
    named: bool,
)
    requires
        is_name(name),
        is_name(sink),
        is_fine_select(v, way),
    ensures
        parsed(
            spelled(
                seq!["create"@, "job"@, name, "as"@, "sink"@, "into"@, sink, "select"@]
                    + select_toks(v, way, named),
            ),
        ) == Some(StatementView::CreateJob { name, sink, select: v }),
{
    lemma_statement_words();
    let r7 = select_toks(v, way, named);
    let r6 = seq!["select"@] + r7;
    let r5 = seq![sink] + r6;
    let r4 = seq!["into"@] + r5;
    let r3 = seq!["sink"@] + r4;
    let r2 = seq!["as"@] + r3;
    let r1 = seq![name] + r2;
    let r0 = seq!["job"@] + r1;
    let toks = seq!["create"@, "job"@, name, "as"@, "sink"@, "into"@, sink, "select"@] + r7;
    let s = spelled(toks);
    assert(toks =~= seq!["create"@] + r0);
    assert(s.skip(0) =~= s);
    lemma_no_keyword(s, 0, "create"@, r0, "select"@, 0);
    lemma_no_keyword(s, 0, "create"@, r0, "insert"@, 0);
    let a = lemma_first_word(s, 0, "create"@, r0);
    lemma_no_keyword(s, a, "job"@, r1, "mapping"@, 0);
    let b = lemma_first_word(s, a, "job"@, r1);
    let c = lemma_first_name(s, b, name, r2);
    let d = lemma_first_word(s, c, "as"@, r3);
    let e = lemma_first_word(s, d, "sink"@, r4);
    let f = lemma_first_word(s, e, "into"@, r5);
    let g = lemma_first_name(s, f, sink, r6);
    let h = lemma_first_word(s, g, "select"@, r7);
    lemma_select(s, h, v, way, named);
}

/// A window that a statement asks for has a positive size: a TUMBLE with any other is refused.
pub proof fn law_windows_have_a_size(s: Seq<char>, i: int)
    ensures
        select_at(s, i) matches Some(v) ==> (v.window matches Some(w) ==> w.size > 0),
{
}

} // verus!
