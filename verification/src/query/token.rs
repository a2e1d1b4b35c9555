//! Tokens of SQL text: what stands at a position, and where it ends.
//!
//! Every reader skips white space first, and leaves the position alone where it finds nothing.

use vstd::prelude::*;
use vstd::std_specs::iter::IteratorSpec;
use vstd::string::StrSliceExecFns;
use super::predicate::Op;
use super::value::{FieldValue, ValueView};
use crate::model::views;
use crate::number::{integer_of, number_of, parse_integer, parse_number};

verus! {

/// SQL text and its characters.
pub struct Input<'a> {
    pub text: &'a str,
    pub chars: Vec<char>,
}

impl<'a> Input<'a> {
    pub open spec fn wf(&self) -> bool {
        self.chars@ == self.text@
    }

    pub fn new(text: &'a str) -> (input: Input<'a>)
        ensures
            input.wf(),
            input.text == text,
    {
        broadcast use vstd::string::axiom_spec_iter, vstd::string::next_postcondition;

        let mut chars: Vec<char> = Vec::new();
        let mut it = text.chars();
        assert(chars@ + it.remaining() =~= text@);
        loop
            invariant_except_break
                chars@ + it.remaining() == text@,
                it.decrease() is Some,
            ensures
                chars@ == text@,
            decreases it.decrease()->0,
        {
            let ghost left = it.remaining();
            match it.next() {
                Some(c) => {
                    chars.push(c);
                    assert(chars@ + it.remaining() =~= text@);
                },
                None => {
                    assert(left.len() == 0);
                    assert(chars@ =~= text@);
                    break;
                },
            }
        }
        Input { text, chars }
    }

    /// The text from one position to another.
    fn part(&self, from: usize, to: usize) -> (s: String)
        requires
            self.wf(),
            from <= to <= self.chars@.len(),
        ensures
            s@ == self.text@.subrange(from as int, to as int),
    {
        self.text.substring_char(from, to).to_string()
    }
}

/// A class of characters.
#[derive(Clone, Copy, Debug, PartialEq, Eq, Structural)]
pub enum Class {
    Space,
    /// Of an identifier.
    Word,
    /// Of a column reference.
    Reference,
    Digit,
    /// Of an integer.
    Integer,
    /// Inside quotes.
    Quoted,
}

pub open spec fn is_word(c: char) -> bool {
    ('a' <= c <= 'z') || ('A' <= c <= 'Z') || ('0' <= c <= '9') || c == '_'
}

pub open spec fn is_in(c: char, class: Class) -> bool {
    match class {
        Class::Space => c == ' ' || c == '\t' || c == '\n' || c == '\u{c}' || c == '\r',
        Class::Word => is_word(c),
        Class::Reference => is_word(c) || c == '.',
        Class::Digit => '0' <= c <= '9',
        Class::Integer => ('0' <= c <= '9') || c == '-',
        Class::Quoted => c != '\'',
    }
}

fn char_is_word(c: char) -> (b: bool)
    ensures
        b == is_word(c),
{
    ('a' <= c && c <= 'z') || ('A' <= c && c <= 'Z') || ('0' <= c && c <= '9') || c == '_'
}

fn char_is_in(c: char, class: Class) -> (b: bool)
    ensures
        b == is_in(c, class),
{
    match class {
        Class::Space => c == ' ' || c == '\t' || c == '\n' || c == '\u{c}' || c == '\r',
        Class::Word => char_is_word(c),
        Class::Reference => char_is_word(c) || c == '.',
        Class::Digit => '0' <= c && c <= '9',
        Class::Integer => ('0' <= c && c <= '9') || c == '-',
        Class::Quoted => c != '\'',
    }
}

/// Where the run of characters of a class that starts at `i` ends.
pub open spec fn run_end(s: Seq<char>, i: int, class: Class) -> int
    decreases s.len() - i,
{
    if 0 <= i < s.len() && is_in(s[i], class) {
        run_end(s, i + 1, class)
    } else {
        i
    }
}

proof fn lemma_run_end(s: Seq<char>, i: int, class: Class)
    requires
        0 <= i <= s.len(),
    ensures
        i <= run_end(s, i, class) <= s.len(),
        forall|j: int| i <= j < run_end(s, i, class) ==> is_in(#[trigger] s[j], class),
    decreases s.len() - i,
{
    if i < s.len() && is_in(s[i], class) {
        lemma_run_end(s, i + 1, class);
    }
}

fn end_of_run(input: &Input, i: usize, class: Class) -> (j: usize)
    requires
        input.wf(),
        i <= input.chars@.len(),
    ensures
        j == run_end(input.text@, i as int, class),
        i <= j <= input.chars@.len(),
        forall|k: int| i <= k < j ==> is_in(#[trigger] input.text@[k], class),
{
    let mut j: usize = i;
    while j < input.chars.len() && char_is_in(input.chars[j], class)
        invariant
            input.wf(),
            i <= j <= input.chars@.len(),
            run_end(input.text@, i as int, class) == run_end(input.text@, j as int, class),
            forall|k: int| i <= k < j ==> is_in(#[trigger] input.text@[k], class),
        decreases input.chars@.len() - j,
    {
        j = j + 1;
    }
    j
}

/// Where the white space at a position ends.
pub open spec fn skipped(s: Seq<char>, i: int) -> int {
    run_end(s, i, Class::Space)
}

/// A letter's code in lower case.
pub open spec fn lower(c: char) -> u32 {
    if 'A' <= c <= 'Z' {
        (c as u32 + 32) as u32
    } else {
        c as u32
    }
}

fn lower_of(c: char) -> (n: u32)
    ensures
        n == lower(c),
{
    if 'A' <= c && c <= 'Z' {
        c as u32 + 32
    } else {
        c as u32
    }
}

/// Whether two words differ in the case of their letters at most.
pub open spec fn same_word(a: Seq<char>, b: Seq<char>) -> bool {
    a.len() == b.len() && forall|i: int| 0 <= i < a.len() ==> lower(#[trigger] a[i]) == lower(b[i])
}

/// Whether two words differ in the case of their letters at most.
pub fn words_match(a: &str, b: &str) -> (r: bool)
    ensures
        r == same_word(a@, b@),
{
    let n: usize = a.unicode_len();
    if n != b.unicode_len() {
        return false;
    }
    let mut i: usize = 0;
    while i < n
        invariant
            i <= n,
            n == a@.len(),
            n == b@.len(),
            forall|j: int| 0 <= j < i ==> lower(#[trigger] a@[j]) == lower(b@[j]),
        decreases n - i,
    {
        if lower_of(a.get_char(i)) != lower_of(b.get_char(i)) {
            return false;
        }
        i = i + 1;
    }
    true
}

/// Where a keyword at a position ends: in any case, and not followed by more of a word.
pub open spec fn keyword_at(s: Seq<char>, i: int, word: Seq<char>) -> Option<int> {
    let j = skipped(s, i);
    let e = j + word.len();
    if e <= s.len() && same_word(s.subrange(j, e), word) && (e == s.len() || !is_word(s[e])) {
        Some(e)
    } else {
        None
    }
}

/// Reads a keyword.
pub fn take_keyword(input: &Input, i: usize, word: &str) -> (r: Option<usize>)
    requires
        input.wf(),
        i <= input.chars@.len(),
    ensures
        match r {
            Some(j) => keyword_at(input.text@, i as int, word@) == Some(j as int) && i <= j
                <= input.chars@.len(),
            None => keyword_at(input.text@, i as int, word@) is None,
        },
{
    let j: usize = end_of_run(input, i, Class::Space);
    let n: usize = word.unicode_len();
    if n > input.chars.len() - j {
        return None;
    }
    let e: usize = j + n;
    let found = input.part(j, e);
    if !words_match(found.as_str(), word) {
        return None;
    }
    if e < input.chars.len() && char_is_word(input.chars[e]) {
        return None;
    }
    Some(e)
}

/// Where a symbol at a position ends.
pub open spec fn symbol_at(s: Seq<char>, i: int, c: char) -> Option<int> {
    let j = skipped(s, i);
    if j < s.len() && s[j] == c {
        Some(j + 1)
    } else {
        None
    }
}

/// Reads a symbol.
pub fn take_symbol(input: &Input, i: usize, c: char) -> (r: Option<usize>)
    requires
        input.wf(),
        i <= input.chars@.len(),
    ensures
        match r {
            Some(j) => symbol_at(input.text@, i as int, c) == Some(j as int) && i < j
                <= input.chars@.len(),
            None => symbol_at(input.text@, i as int, c) is None,
        },
{
    let j: usize = end_of_run(input, i, Class::Space);
    if j < input.chars.len() && input.chars[j] == c {
        Some(j + 1)
    } else {
        None
    }
}

/// The position behind a symbol that may be there.
pub open spec fn past(s: Seq<char>, i: int, c: char) -> int {
    match symbol_at(s, i, c) {
        Some(j) => j,
        None => i,
    }
}

/// Reads a symbol if it is there.
pub fn pass_symbol(input: &Input, i: usize, c: char) -> (j: usize)
    requires
        input.wf(),
        i <= input.chars@.len(),
    ensures
        j == past(input.text@, i as int, c),
        i <= j <= input.chars@.len(),
{
    match take_symbol(input, i, c) {
        Some(j) => j,
        None => i,
    }
}

/// The run of a class at a position, and where it ends; none if it is empty.
pub open spec fn word_at(s: Seq<char>, i: int, class: Class) -> Option<(Seq<char>, int)> {
    let j = skipped(s, i);
    let e = run_end(s, j, class);
    if e > j {
        Some((s.subrange(j, e), e))
    } else {
        None
    }
}

pub fn take_word(input: &Input, i: usize, class: Class) -> (r: Option<(String, usize)>)
    requires
        input.wf(),
        i <= input.chars@.len(),
    ensures
        match r {
            Some((w, j)) => word_at(input.text@, i as int, class) == Some((w@, j as int)) && i < j
                <= input.chars@.len(),
            None => word_at(input.text@, i as int, class) is None,
        },
{
    let j: usize = end_of_run(input, i, Class::Space);
    let e: usize = end_of_run(input, j, class);
    if e > j {
        Some((input.part(j, e), e))
    } else {
        None
    }
}

/// An identifier.
pub open spec fn ident_at(s: Seq<char>, i: int) -> Option<(Seq<char>, int)> {
    word_at(s, i, Class::Word)
}

/// A column reference, possibly qualified by a table.
pub open spec fn col_ref_at(s: Seq<char>, i: int) -> Option<(Seq<char>, int)> {
    word_at(s, i, Class::Reference)
}

/// Quoted text; a missing closing quote is taken to stand at the end.
pub open spec fn string_at(s: Seq<char>, i: int) -> Option<(Seq<char>, int)> {
    match symbol_at(s, i, '\'') {
        None => None,
        Some(j) => {
            let e = run_end(s, j, Class::Quoted);
            Some(
                (
                    s.subrange(j, e),
                    if e < s.len() {
                        e + 1
                    } else {
                        e
                    },
                ),
            )
        },
    }
}

pub fn take_string(input: &Input, i: usize) -> (r: Option<(String, usize)>)
    requires
        input.wf(),
        i <= input.chars@.len(),
    ensures
        match r {
            Some((w, j)) => string_at(input.text@, i as int) == Some((w@, j as int)) && i < j
                <= input.chars@.len(),
            None => string_at(input.text@, i as int) is None,
        },
{
    match take_symbol(input, i, '\'') {
        None => None,
        Some(j) => {
            let e: usize = end_of_run(input, j, Class::Quoted);
            let w = input.part(j, e);
            if e < input.chars.len() {
                Some((w, e + 1))
            } else {
                Some((w, e))
            }
        },
    }
}

/// A comparison sign.
pub open spec fn op_at(s: Seq<char>, i: int) -> Option<(Op, int)> {
    let j = skipped(s, i);
    if j + 1 < s.len() && s[j] == '>' && s[j + 1] == '=' {
        Some((Op::Ge, j + 2))
    } else if j + 1 < s.len() && s[j] == '<' && s[j + 1] == '=' {
        Some((Op::Le, j + 2))
    } else if j < s.len() && s[j] == '=' {
        Some((Op::Eq, j + 1))
    } else if j < s.len() && s[j] == '>' {
        Some((Op::Gt, j + 1))
    } else if j < s.len() && s[j] == '<' {
        Some((Op::Lt, j + 1))
    } else {
        None
    }
}

pub fn take_op(input: &Input, i: usize) -> (r: Option<(Op, usize)>)
    requires
        input.wf(),
        i <= input.chars@.len(),
    ensures
        match r {
            Some((o, j)) => op_at(input.text@, i as int) == Some((o, j as int)) && i < j
                <= input.chars@.len(),
            None => op_at(input.text@, i as int) is None,
        },
{
    let j: usize = end_of_run(input, i, Class::Space);
    let n: usize = input.chars.len();
    if j >= n {
        return None;
    }
    let c: char = input.chars[j];
    let or_equal: bool = j + 1 < n && input.chars[j + 1] == '=';
    if c == '>' && or_equal {
        Some((Op::Ge, j + 2))
    } else if c == '<' && or_equal {
        Some((Op::Le, j + 2))
    } else if c == '=' {
        Some((Op::Eq, j + 1))
    } else if c == '>' {
        Some((Op::Gt, j + 1))
    } else if c == '<' {
        Some((Op::Lt, j + 1))
    } else {
        None
    }
}

/// The bytes of ASCII text.
pub open spec fn ascii_bytes(s: Seq<char>) -> Seq<u8> {
    Seq::new(s.len(), |i: int| s[i] as u8)
}

fn ascii_span(input: &Input, from: usize, to: usize) -> (b: Vec<u8>)
    requires
        input.wf(),
        from <= to <= input.chars@.len(),
    ensures
        b@ == ascii_bytes(input.text@.subrange(from as int, to as int)),
{
    let mut b: Vec<u8> = Vec::new();
    let ghost all = ascii_bytes(input.text@.subrange(from as int, to as int));
    let mut i: usize = from;
    while i < to
        invariant
            input.wf(),
            from <= i <= to <= input.chars@.len(),
            all == ascii_bytes(input.text@.subrange(from as int, to as int)),
            b@ =~= all.take(i - from),
        decreases to - i,
    {
        b.push(input.chars[i] as u8);
        i = i + 1;
    }
    assert(b@ =~= all);
    b
}

/// An integer, possibly with a minus sign.
pub open spec fn integer_at(s: Seq<char>, i: int) -> Option<(i64, int)> {
    match word_at(s, i, Class::Integer) {
        None => None,
        Some((w, e)) => match integer_of(ascii_bytes(w)) {
            Some(n) => Some((n, e)),
            None => None,
        },
    }
}

pub fn take_integer(input: &Input, i: usize) -> (r: Option<(i64, usize)>)
    requires
        input.wf(),
        i <= input.chars@.len(),
    ensures
        match r {
            Some((n, j)) => integer_at(input.text@, i as int) == Some((n, j as int)) && i < j
                <= input.chars@.len(),
            None => integer_at(input.text@, i as int) is None,
        },
{
    let j: usize = end_of_run(input, i, Class::Space);
    let e: usize = end_of_run(input, j, Class::Integer);
    if e == j {
        return None;
    }
    let b = ascii_span(input, j, e);
    assert(b@.subrange(0, b@.len() as int) =~= b@);
    match parse_integer(b.as_slice(), 0, b.len()) {
        Some(n) => Some((n, e)),
        None => None,
    }
}

/// A count: decimal digits.
pub open spec fn count_at(s: Seq<char>, i: int) -> Option<(u64, int)> {
    match word_at(s, i, Class::Digit) {
        None => None,
        Some((w, e)) => match number_of(ascii_bytes(w)) {
            Some(n) => Some((n, e)),
            None => None,
        },
    }
}

pub fn take_count(input: &Input, i: usize) -> (r: Option<(u64, usize)>)
    requires
        input.wf(),
        i <= input.chars@.len(),
    ensures
        match r {
            Some((n, j)) => count_at(input.text@, i as int) == Some((n, j as int)) && i < j
                <= input.chars@.len(),
            None => count_at(input.text@, i as int) is None,
        },
{
    let j: usize = end_of_run(input, i, Class::Space);
    let e: usize = end_of_run(input, j, Class::Digit);
    if e == j {
        return None;
    }
    let b = ascii_span(input, j, e);
    assert(b@.skip(0) =~= b@);
    match parse_number(b.as_slice(), 0) {
        Some(n) => Some((n, e)),
        None => None,
    }
}

/// A literal: quoted text or an integer.
pub open spec fn literal_at(s: Seq<char>, i: int) -> Option<(ValueView, int)> {
    match string_at(s, i) {
        Some((w, e)) => Some((ValueView::Str(w), e)),
        None => match integer_at(s, i) {
            Some((n, e)) => Some((ValueView::I64(n), e)),
            None => None,
        },
    }
}

pub fn take_literal(input: &Input, i: usize) -> (r: Option<(FieldValue, usize)>)
    requires
        input.wf(),
        i <= input.chars@.len(),
    ensures
        match r {
            Some((v, j)) => literal_at(input.text@, i as int) == Some((v@, j as int)) && i < j
                <= input.chars@.len(),
            None => literal_at(input.text@, i as int) is None,
        },
{
    match take_string(input, i) {
        Some((w, e)) => Some((FieldValue::Str(w), e)),
        None => match take_integer(input, i) {
            Some((n, e)) => Some((FieldValue::I64(n), e)),
            None => None,
        },
    }
}

/// A part of a statement that repeats: what stands at a position as this part, and where it ends.
pub trait Part {
    type Out: View;

    spec fn at(s: Seq<char>, i: int) -> Option<(<Self::Out as View>::V, int)>;

    /// A part takes up at least one character.
    proof fn advances(s: Seq<char>, i: int)
        requires
            0 <= i <= s.len(),
        ensures
            Self::at(s, i) matches Some((v, j)) ==> i < j <= s.len(),
    ;

    fn take(input: &Input, i: usize) -> (r: Option<(Self::Out, usize)>)
        requires
            input.wf(),
            i <= input.chars@.len(),
        ensures
            match r {
                Some((v, j)) => Self::at(input.text@, i as int) == Some((v@, j as int)),
                None => Self::at(input.text@, i as int) is None,
            },
    ;
}

/// What stands between the parts of a list.
#[derive(Clone, Copy, Debug, PartialEq, Eq, Structural)]
pub enum Separator {
    Comma,
    And,
}

pub open spec fn separator_at(s: Seq<char>, i: int, sep: Separator) -> Option<int> {
    match sep {
        Separator::Comma => symbol_at(s, i, ','),
        Separator::And => keyword_at(s, i, "and"@),
    }
}

fn take_separator(input: &Input, i: usize, sep: Separator) -> (r: Option<usize>)
    requires
        input.wf(),
        i <= input.chars@.len(),
    ensures
        match r {
            Some(j) => separator_at(input.text@, i as int, sep) == Some(j as int) && i <= j
                <= input.chars@.len(),
            None => separator_at(input.text@, i as int, sep) is None,
        },
{
    match sep {
        Separator::Comma => take_symbol(input, i, ','),
        Separator::And => take_keyword(input, i, "and"),
    }
}

pub proof fn lemma_tokens_advance(s: Seq<char>, i: int, c: char, word: Seq<char>, class: Class)
    requires
        0 <= i <= s.len(),
    ensures
        symbol_at(s, i, c) matches Some(j) ==> i < j <= s.len(),
        keyword_at(s, i, word) matches Some(j) ==> i <= j <= s.len(),
        i <= past(s, i, c) <= s.len(),
        word_at(s, i, class) matches Some((w, j)) ==> i < j <= s.len(),
        string_at(s, i) matches Some((w, j)) ==> i < j <= s.len(),
        op_at(s, i) matches Some((o, j)) ==> i < j <= s.len(),
        literal_at(s, i) matches Some((v, j)) ==> i < j <= s.len(),
        integer_at(s, i) matches Some((v, j)) ==> i < j <= s.len(),
{
    let j = skipped(s, i);
    lemma_run_end(s, i, Class::Space);
    lemma_run_end(s, j, class);
    lemma_run_end(s, j, Class::Integer);
    if symbol_at(s, i, '\'') is Some {
        lemma_run_end(s, j + 1, Class::Quoted);
    }
}

/// Parts put before a list that follows.
pub open spec fn before<T>(first: Seq<T>, rest: Option<(Seq<T>, int)>) -> Option<(Seq<T>, int)> {
    match rest {
        Some((more, e)) => Some((first + more, e)),
        None => None,
    }
}

/// One or more parts with separators between them.
pub open spec fn list_at<P: Part>(s: Seq<char>, i: int, sep: Separator) -> Option<
    (Seq<<P::Out as View>::V>, int),
>
    decreases s.len() - i,
    when 0 <= i <= s.len()
    via list_at_decreases::<P>
{
    match P::at(s, i) {
        None => None,
        Some((v, j)) => match separator_at(s, j, sep) {
            None => Some((seq![v], j)),
            Some(k) => before(seq![v], list_at::<P>(s, k, sep)),
        },
    }
}

#[via_fn]
proof fn list_at_decreases<P: Part>(s: Seq<char>, i: int, sep: Separator) {
    P::advances(s, i);
    if let Some((v, j)) = P::at(s, i) {
        lemma_tokens_advance(s, j, ',', "and"@, Class::Word);
    }
}

pub proof fn lemma_list_advances<P: Part>(s: Seq<char>, i: int, sep: Separator)
    requires
        0 <= i <= s.len(),
    ensures
        list_at::<P>(s, i, sep) matches Some((v, j)) ==> i < j <= s.len(),
    decreases s.len() - i,
{
    P::advances(s, i);
    if let Some((v, j)) = P::at(s, i) {
        lemma_tokens_advance(s, j, ',', "and"@, Class::Word);
        if let Some(k) = separator_at(s, j, sep) {
            lemma_list_advances::<P>(s, k, sep);
        }
    }
}

/// Reads one or more parts with separators between them.
pub fn take_list<P: Part>(input: &Input, start: usize, sep: Separator) -> (r: Option<
    (Vec<P::Out>, usize),
>)
    requires
        input.wf(),
        start <= input.chars@.len(),
    ensures
        match r {
            Some((v, j)) => list_at::<P>(input.text@, start as int, sep) == Some(
                (views(v@), j as int),
            ) && start < j <= input.chars@.len(),
            None => list_at::<P>(input.text@, start as int, sep) is None,
        },
{
    let ghost s = input.text@;
    let ghost whole = list_at::<P>(s, start as int, sep);
    let mut out: Vec<P::Out> = Vec::new();
    let mut i: usize = start;
    proof {
        lemma_list_advances::<P>(s, start as int, sep);
        assert(views(out@) =~= Seq::empty());
        if let Some((v, j)) = whole {
            assert(Seq::empty() + v =~= v);
        }
    }
    loop
        invariant
            input.wf(),
            s == input.text@,
            start <= i <= s.len(),
            whole == list_at::<P>(s, start as int, sep),
            whole matches Some((v, j)) ==> start < j <= s.len(),
            whole == before(views(out@), list_at::<P>(s, i as int, sep)),
        decreases s.len() - i,
    {
        let ghost so_far = views(out@);
        proof {
            P::advances(s, i as int);
            lemma_list_advances::<P>(s, i as int, sep);
        }
        match P::take(input, i) {
            None => {
                return None;
            },
            Some((v, j)) => {
                let ghost x = v@;
                out.push(v);
                assert(views(out@) =~= so_far.push(x));
                match take_separator(input, j, sep) {
                    None => {
                        assert(so_far + seq![x] =~= views(out@));
                        return Some((out, j));
                    },
                    Some(k) => {
                        proof {
                            let rest = list_at::<P>(s, k as int, sep);
                            if let Some((more, e)) = rest {
                                assert(so_far + (seq![x] + more) =~= views(out@) + more);
                            }
                        }
                        i = k;
                    },
                }
            },
        }
    }
}

/// One or more parts up to a closing bracket; commas between them may be left out.
pub open spec fn closed_at<P: Part>(s: Seq<char>, i: int) -> Option<
    (Seq<<P::Out as View>::V>, int),
>
    decreases s.len() - i,
    when 0 <= i <= s.len()
    via closed_at_decreases::<P>
{
    match P::at(s, i) {
        None => None,
        Some((v, j)) => match symbol_at(s, j, ')') {
            Some(k) => Some((seq![v], k)),
            None => before(seq![v], closed_at::<P>(s, past(s, j, ','))),
        },
    }
}

#[via_fn]
proof fn closed_at_decreases<P: Part>(s: Seq<char>, i: int) {
    P::advances(s, i);
    if let Some((v, j)) = P::at(s, i) {
        lemma_tokens_advance(s, j, ',', Seq::empty(), Class::Word);
    }
}

pub proof fn lemma_closed_advances<P: Part>(s: Seq<char>, i: int)
    requires
        0 <= i <= s.len(),
    ensures
        closed_at::<P>(s, i) matches Some((v, j)) ==> i < j <= s.len(),
    decreases s.len() - i,
{
    P::advances(s, i);
    if let Some((v, j)) = P::at(s, i) {
        lemma_tokens_advance(s, j, ',', Seq::empty(), Class::Word);
        lemma_tokens_advance(s, j, ')', Seq::empty(), Class::Word);
        lemma_closed_advances::<P>(s, past(s, j, ','));
    }
}

/// Reads one or more parts up to a closing bracket.
pub fn take_closed<P: Part>(input: &Input, start: usize) -> (r: Option<(Vec<P::Out>, usize)>)
    requires
        input.wf(),
        start <= input.chars@.len(),
    ensures
        match r {
            Some((v, j)) => closed_at::<P>(input.text@, start as int) == Some((views(v@), j as int))
                && start < j <= input.chars@.len(),
            None => closed_at::<P>(input.text@, start as int) is None,
        },
{
    let ghost s = input.text@;
    let ghost whole = closed_at::<P>(s, start as int);
    let mut out: Vec<P::Out> = Vec::new();
    let mut i: usize = start;
    proof {
        lemma_closed_advances::<P>(s, start as int);
        assert(views(out@) =~= Seq::empty());
        if let Some((v, j)) = whole {
            assert(Seq::empty() + v =~= v);
        }
    }
    loop
        invariant
            input.wf(),
            s == input.text@,
            start <= i <= s.len(),
            whole == closed_at::<P>(s, start as int),
            whole matches Some((v, j)) ==> start < j <= s.len(),
            whole == before(views(out@), closed_at::<P>(s, i as int)),
        decreases s.len() - i,
    {
        let ghost so_far = views(out@);
        proof {
            P::advances(s, i as int);
        }
        match P::take(input, i) {
            None => {
                return None;
            },
            Some((v, j)) => {
                let ghost x = v@;
                out.push(v);
                assert(views(out@) =~= so_far.push(x));
                match take_symbol(input, j, ')') {
                    Some(k) => {
                        assert(so_far + seq![x] =~= views(out@));
                        return Some((out, k));
                    },
                    None => {
                        let k: usize = pass_symbol(input, j, ',');
                        proof {
                            if let Some((more, e)) = closed_at::<P>(s, k as int) {
                                assert(so_far + (seq![x] + more) =~= views(out@) + more);
                            }
                        }
                        i = k;
                    },
                }
            },
        }
    }
}

/// Identifiers.
pub struct IdentPart;

impl Part for IdentPart {
    type Out = String;

    open spec fn at(s: Seq<char>, i: int) -> Option<(Seq<char>, int)> {
        ident_at(s, i)
    }

    proof fn advances(s: Seq<char>, i: int) {
        lemma_tokens_advance(s, i, ',', Seq::empty(), Class::Word);
    }

    fn take(input: &Input, i: usize) -> (r: Option<(String, usize)>) {
        take_word(input, i, Class::Word)
    }
}

/// Literals.
pub struct LiteralPart;

impl Part for LiteralPart {
    type Out = FieldValue;

    open spec fn at(s: Seq<char>, i: int) -> Option<(ValueView, int)> {
        literal_at(s, i)
    }

    proof fn advances(s: Seq<char>, i: int) {
        lemma_tokens_advance(s, i, ',', Seq::empty(), Class::Word);
    }

    fn take(input: &Input, i: usize) -> (r: Option<(FieldValue, usize)>) {
        take_literal(input, i)
    }
}

/// Keywords are found whatever the case of the letters.
pub proof fn law_keywords_ignore_case(s: Seq<char>, t: Seq<char>, i: int, word: Seq<char>)
    requires
        same_word(s, t),
        0 <= i <= s.len(),
    ensures
        keyword_at(s, i, word) == keyword_at(t, i, word),
{
    assert forall|j: int| 0 <= j < s.len() implies is_in(#[trigger] s[j], Class::Space) == is_in(
        t[j],
        Class::Space,
    ) && is_word(s[j]) == is_word(t[j]) by {
        lemma_same_letter(s[j], t[j]);
    }
    lemma_same_runs(s, t, i);
    lemma_run_end(s, i, Class::Space);
    let j = skipped(s, i);
    let e = j + word.len();
    if e <= s.len() {
        let (a, b) = (s.subrange(j, e), t.subrange(j, e));
        assert forall|k: int| 0 <= k < word.len() implies lower(#[trigger] a[k]) == lower(b[k]) by {
            assert(lower(s[j + k]) == lower(t[j + k]));
        }
        assert(same_word(a, word) == same_word(b, word)) by {
            if same_word(a, word) {
                assert forall|k: int| 0 <= k < b.len() implies lower(#[trigger] b[k]) == lower(
                    word[k],
                ) by {
                    assert(lower(a[k]) == lower(word[k]));
                }
            }
            if same_word(b, word) {
                assert forall|k: int| 0 <= k < a.len() implies lower(#[trigger] a[k]) == lower(
                    word[k],
                ) by {
                    assert(lower(b[k]) == lower(word[k]));
                }
            }
        }
        if e < s.len() {
            assert(lower(s[e]) == lower(t[e]));
        }
    }
}

proof fn lemma_same_letter(a: char, b: char)
    requires
        lower(a) == lower(b),
    ensures
        is_in(a, Class::Space) == is_in(b, Class::Space),
        is_word(a) == is_word(b),
{
    let (x, y) = (a as u32, b as u32);
    if x == y {
        assert(a == b);
    } else if 'A' <= a <= 'Z' {
        assert('a' <= b <= 'z');
    } else {
        assert('A' <= b <= 'Z');
        assert('a' <= a <= 'z');
    }
}

proof fn lemma_same_runs(s: Seq<char>, t: Seq<char>, i: int)
    requires
        s.len() == t.len(),
        0 <= i <= s.len(),
        forall|j: int|
            0 <= j < s.len() ==> is_in(#[trigger] s[j], Class::Space) == is_in(t[j], Class::Space),
    ensures
        skipped(s, i) == skipped(t, i),
    decreases s.len() - i,
{
    if i < s.len() && is_in(s[i], Class::Space) {
        lemma_same_runs(s, t, i + 1);
    }
}

} // verus!
