//! The tokenizer's cursor over the characters of a journal, and the small
//! scanners the directive parsers are made of.
use vstd::prelude::*;
use crate::error::ParserError;
use crate::text::{is_whitespace, is_numeric, is_ws, numeric, string_from_chars};

verus! {

/// The line index and the position in the line after reading
/// `content[from..to]` from `(li, lp)`: a newline starts a new line, any
/// other character moves one position to the right.
pub open spec fn advance(content: Seq<char>, from: int, to: int, li: int, lp: int) -> (int, int)
    decreases to - from,
{
    if to <= from {
        (li, lp)
    } else {
        let (a, b) = advance(content, from, to - 1, li, lp);
        if content[to - 1] == '\n' {
            (a + 1, 0)
        } else {
            (a, b + 1)
        }
    }
}

/// The column of position `p`: how far it is from the start of its line.
pub open spec fn column(content: Seq<char>, p: int) -> int
    decreases p,
{
    if p <= 0 {
        0
    } else if content[p - 1] == '\n' {
        0
    } else {
        column(content, p - 1) + 1
    }
}

/// Reading from a position whose column is known (or from a newline) keeps
/// the position in the line equal to the column.
pub proof fn lemma_advance_column(c: Seq<char>, from: int, to: int, li: int, lp: int)
    requires
        0 <= from <= to <= c.len(),
        lp == column(c, from) || (from < to && c[from] == '\n'),
    ensures
        advance(c, from, to, li, lp).1 == column(c, to),
    decreases to - from,
{
    if to > from {
        if !(to - 1 == from && c[from] == '\n') {
            lemma_advance_column(c, from, to - 1, li, lp);
        }
    }
}

/// The first position from `i` on that is not blank space within a line.
pub open spec fn skip_ws(content: Seq<char>, i: int) -> int
    decreases content.len() - i,
{
    if 0 <= i < content.len() && is_ws(content[i]) && content[i] != '\n' {
        skip_ws(content, i + 1)
    } else {
        i
    }
}

/// The first position from `i` on that is not white space (newlines included).
pub open spec fn skip_blank(content: Seq<char>, i: int) -> int
    decreases content.len() - i,
{
    if 0 <= i < content.len() && is_ws(content[i]) {
        skip_blank(content, i + 1)
    } else {
        i
    }
}

/// The first newline from `i` on, or the end.
pub open spec fn line_end(content: Seq<char>, i: int) -> int
    decreases content.len() - i,
{
    if 0 <= i < content.len() && content[i] != '\n' {
        line_end(content, i + 1)
    } else {
        i
    }
}

/// How many times `c` occurs in `s`.
pub open spec fn occurrences(s: Seq<char>, c: char) -> nat
    decreases s.len(),
{
    if s.len() == 0 {
        0
    } else {
        occurrences(s.drop_last(), c) + if s.last() == c {
            1nat
        } else {
            0nat
        }
    }
}

/// A value expression ends at a `;`, or at a newline outside parentheses.
pub open spec fn value_stop(content: Seq<char>, from: int, j: int) -> bool {
    content[j] == ';' || (content[j] == '\n' && occurrences(content.subrange(from, j), '(')
        == occurrences(content.subrange(from, j), ')'))
}

/// Where a value expression that starts at `from` ends.
pub open spec fn value_end(content: Seq<char>, from: int, i: int) -> int
    decreases content.len() - i,
{
    if from <= i < content.len() && !value_stop(content, from, i) {
        value_end(content, from, i + 1)
    } else {
        i
    }
}

/// The scan of a word: the position where it ends and the word. A word
/// stops at a newline, or (outside quotes) at white space, a digit, `.`,
/// `-` or `;`; a `"` at the start opens quotes and the next `"` closes them.
pub open spec fn word_scan(content: Seq<char>, i: int, quote: bool, word: Seq<char>) -> (int, Seq<char>)
    decreases content.len() - i,
{
    if i < 0 || i >= content.len() {
        (i, word)
    } else {
        let c = content[i];
        if c == '\n' {
            (i, word)
        } else if c == '"' {
            if word.len() == 0 {
                word_scan(content, i + 1, true, word)
            } else if quote {
                (i + 1, word)
            } else {
                word_scan(content, i + 1, quote, word)
            }
        } else if (is_ws(c) || numeric(c) || c == '.' || c == '-' || c == ';') && !quote {
            (i, word)
        } else {
            word_scan(content, i + 1, quote, word.push(c))
        }
    }
}

/// Whether the line read next is blank or indented.
#[derive(Debug, Copy, Clone, PartialEq, Eq, Structural)]
pub enum LineType {
    Blank,
    Indented,
}

/// The characters of a journal and a cursor over them.
#[derive(Debug)]
pub struct Tokenizer {
    pub file: Option<String>,
    pub content: Vec<char>,
    pub line_index: usize,
    pub line_position: usize,
    pub position: usize,
    pub seen_files: Vec<String>,
}

impl Tokenizer {
    /// The cursor is within the content, and the line counters behind it.
    pub open spec fn wf(&self) -> bool {
        &&& self.position <= self.content@.len()
        &&& self.line_index <= self.position
        &&& self.line_position <= self.position
    }

    /// The cursor moved from `old` to its position, counting lines as it went.
    pub open spec fn moved_from(&self, old: Tokenizer) -> bool {
        &&& self.content@ == old.content@
        &&& self.file == old.file
        &&& self.seen_files@ == old.seen_files@
        &&& (self.line_index as int, self.line_position as int) == advance(
            self.content@,
            old.position as int,
            self.position as int,
            old.line_index as int,
            old.line_position as int,
        )
    }

    /// A tokenizer at the start of `content`.
    pub fn from_content(content: &str) -> (res: Tokenizer)
        ensures
            res.content@ == content@,
            res.file is None,
            res.seen_files@.len() == 0,
            res.position == 0,
            res.line_index == 0,
            res.line_position == 0,
            res.wf(),
    {
        Tokenizer {
            file: None,
            content: crate::text::chars_of(content),
            line_index: 0,
            line_position: 0,
            position: 0,
            seen_files: Vec::new(),
        }
    }

    /// A tokenizer at the start of the content of `file`, which counts as seen.
    pub fn from_file(file: String, content: &str) -> (res: Tokenizer)
        ensures
            res.content@ == content@,
            res.file == Some(file),
            res.seen_files@ == seq![file],
            res.position == 0,
            res.line_index == 0,
            res.line_position == 0,
            res.wf(),
    {
        let mut seen_files = Vec::new();
        seen_files.push(file.clone());
        Tokenizer {
            file: Some(file),
            content: crate::text::chars_of(content),
            line_index: 0,
            line_position: 0,
            position: 0,
            seen_files,
        }
    }

    /// The character under the cursor.
    pub fn get_char(&self) -> (res: Option<char>)
        ensures
            self.position < self.content@.len() ==> res == Some(self.content@[self.position as int]),
            self.position >= self.content@.len() ==> res is None,
    {
        if self.position < self.content.len() {
            Some(self.content[self.position])
        } else {
            None
        }
    }

    /// Reads the character under the cursor and moves past it.
    pub fn next(&mut self) -> (res: char)
        requires
            old(self).wf(),
            old(self).position < old(self).content@.len(),
        ensures
            final(self).wf(),
            res == old(self).content@[old(self).position as int],
            final(self).position == old(self).position + 1,
            final(self).moved_from(*old(self)),
    {
        let n = self.content.len();
        assert(self.position < n);
        proof {
            reveal_with_fuel(advance, 2);
        }
        let c: char = self.content[self.position];
        if c == '\n' {
            self.line_position = 0;
            self.line_index = self.line_index + 1;
        } else {
            self.line_position = self.line_position + 1;
        }
        self.position = self.position + 1;
        c
    }
}

/// Moves past blank lines and leading white space; the line reached is
/// blank when it starts at its first column (or at the end of the content),
/// indented otherwise.
pub fn consume_whitespaces_and_lines(tokenizer: &mut Tokenizer) -> (res: LineType)
    requires
        old(tokenizer).wf(),
    ensures
        final(tokenizer).wf(),
        final(tokenizer).moved_from(*old(tokenizer)),
        final(tokenizer).position == skip_blank(old(tokenizer).content@, old(tokenizer).position as int),
        final(tokenizer).position >= old(tokenizer).position,
        res == (if final(tokenizer).position < final(tokenizer).content@.len() && final(tokenizer).line_position != 0 {
            LineType::Indented
        } else {
            LineType::Blank
        }),
{
    let ghost p0 = tokenizer.position as int;
    let ghost li0 = tokenizer.line_index as int;
    let ghost lp0 = tokenizer.line_position as int;
    while tokenizer.position < tokenizer.content.len() && is_whitespace(tokenizer.content[tokenizer.position])
        invariant
            tokenizer.wf(),
            p0 <= tokenizer.position,
            tokenizer.content@ == old(tokenizer).content@,
            tokenizer.file == old(tokenizer).file,
            tokenizer.seen_files@ == old(tokenizer).seen_files@,
            p0 == old(tokenizer).position,
            li0 == old(tokenizer).line_index,
            lp0 == old(tokenizer).line_position,
            (tokenizer.line_index as int, tokenizer.line_position as int) == advance(tokenizer.content@, p0, tokenizer.position as int, li0, lp0),
            skip_blank(tokenizer.content@, p0) == skip_blank(tokenizer.content@, tokenizer.position as int),
        decreases tokenizer.content@.len() - tokenizer.position,
    {
        if tokenizer.content[tokenizer.position] == '\n' {
            tokenizer.line_index = tokenizer.line_index + 1;
            tokenizer.line_position = 0;
        } else {
            tokenizer.line_position = tokenizer.line_position + 1;
        }
        tokenizer.position = tokenizer.position + 1;
    }
    if tokenizer.position < tokenizer.content.len() && tokenizer.line_position != 0 {
        LineType::Indented
    } else {
        LineType::Blank
    }
}

/// Moves past white space within the line.
pub fn consume_whitespaces(tokenizer: &mut Tokenizer)
    requires
        old(tokenizer).wf(),
    ensures
        final(tokenizer).wf(),
        final(tokenizer).moved_from(*old(tokenizer)),
        final(tokenizer).position == skip_ws(old(tokenizer).content@, old(tokenizer).position as int),
        final(tokenizer).position >= old(tokenizer).position,
{
    let ghost p0 = tokenizer.position as int;
    let ghost li0 = tokenizer.line_index as int;
    let ghost lp0 = tokenizer.line_position as int;
    while tokenizer.position < tokenizer.content.len() && is_whitespace(tokenizer.content[tokenizer.position])
        && tokenizer.content[tokenizer.position] != '\n'
        invariant
            tokenizer.wf(),
            p0 <= tokenizer.position,
            tokenizer.content@ == old(tokenizer).content@,
            tokenizer.file == old(tokenizer).file,
            tokenizer.seen_files@ == old(tokenizer).seen_files@,
            p0 == old(tokenizer).position,
            li0 == old(tokenizer).line_index,
            lp0 == old(tokenizer).line_position,
            (tokenizer.line_index as int, tokenizer.line_position as int) == advance(tokenizer.content@, p0, tokenizer.position as int, li0, lp0),
            skip_ws(tokenizer.content@, p0) == skip_ws(tokenizer.content@, tokenizer.position as int),
        decreases tokenizer.content@.len() - tokenizer.position,
    {
        tokenizer.position = tokenizer.position + 1;
        tokenizer.line_position = tokenizer.line_position + 1;
    }
}

/// Moves past `string` when the content continues with it; else stops at
/// the first character that differs and reports unexpected input.
pub fn consume_str(tokenizer: &mut Tokenizer, string: &str) -> (res: Result<(), ParserError>)
    requires
        old(tokenizer).wf(),
    ensures
        final(tokenizer).wf(),
        final(tokenizer).moved_from(*old(tokenizer)),
        ({
            let p0 = old(tokenizer).position as int;
            let c = old(tokenizer).content@;
            let k = final(tokenizer).position - p0;
            &&& 0 <= k <= string@.len()
            &&& c.subrange(p0, p0 + k) == string@.take(k)
            &&& (res is Ok <==> k == string@.len())
            &&& (res is Err ==> res == Err::<(), ParserError>(ParserError::UnexpectedInput(None)) && (p0 + k
                == c.len() || c[p0 + k] != string@[k]))
        }),
{
    let chars = crate::text::chars_of(string);
    let ghost p0 = tokenizer.position as int;
    let ghost li0 = tokenizer.line_index as int;
    let ghost lp0 = tokenizer.line_position as int;
    let n = chars.len();
    for i in 0..n
        invariant
            n == chars@.len(),
            chars@ == string@,
            tokenizer.wf(),
            tokenizer.position == p0 + i,
            tokenizer.content@ == old(tokenizer).content@,
            tokenizer.file == old(tokenizer).file,
            tokenizer.seen_files@ == old(tokenizer).seen_files@,
            p0 == old(tokenizer).position,
            li0 == old(tokenizer).line_index,
            lp0 == old(tokenizer).line_position,
            (tokenizer.line_index as int, tokenizer.line_position as int) == advance(tokenizer.content@, p0, tokenizer.position as int, li0, lp0),
            tokenizer.content@.subrange(p0, p0 + i) == string@.take(i as int),
    {
        let input = chars[i];
        match tokenizer.get_char() {
            Some(c) => {
                if c == input {
                    let ghost before = tokenizer.content@.subrange(p0, p0 + i);
                    let ghost tb = *tokenizer;
                    tokenizer.next();
                    proof {
                        lemma_advance_split(tokenizer.content@, p0, tb.position as int, tokenizer.position as int, li0, lp0);
                    }
                    assert(tokenizer.content@.subrange(p0, p0 + i + 1) =~= before.push(c));
                    assert(string@.take(i + 1) =~= string@.take(i as int).push(input));
                } else {
                    return Err(ParserError::UnexpectedInput(None));
                }
            },
            None => {
                return Err(ParserError::UnexpectedInput(None));
            },
        }
    }
    assert(string@.take(n as int) =~= string@);
    Ok(())
}

/// Reads a value expression: up to a `;`, or a newline outside parentheses.
pub fn get_value_expression(tokenizer: &mut Tokenizer) -> (res: String)
    requires
        old(tokenizer).wf(),
    ensures
        final(tokenizer).wf(),
        final(tokenizer).content@ == old(tokenizer).content@,
        final(tokenizer).file == old(tokenizer).file,
        final(tokenizer).seen_files@ == old(tokenizer).seen_files@,
        final(tokenizer).position == value_end(old(tokenizer).content@, old(tokenizer).position as int, old(tokenizer).position as int),
        res@ == old(tokenizer).content@.subrange(old(tokenizer).position as int, final(tokenizer).position as int),
        final(tokenizer).line_index == old(tokenizer).line_index + occurrences(res@, '\n'),
        final(tokenizer).line_position == (if occurrences(res@, '\n') > 0 {
            0
        } else {
            old(tokenizer).line_position as int
        }),
{
    let ghost p0 = tokenizer.position as int;
    let ghost c = tokenizer.content@;
    let mut retval: Vec<char> = Vec::new();
    let mut open: usize = 0;
    let mut close: usize = 0;
    while tokenizer.position < tokenizer.content.len() && !(tokenizer.content[tokenizer.position] == ';'
        || (tokenizer.content[tokenizer.position] == '\n' && open == close))
        invariant
            tokenizer.wf(),
            c == tokenizer.content@,
            c == old(tokenizer).content@,
            tokenizer.file == old(tokenizer).file,
            tokenizer.seen_files@ == old(tokenizer).seen_files@,
            p0 == old(tokenizer).position,
            p0 <= tokenizer.position,
            retval@ == c.subrange(p0, tokenizer.position as int),
            open == occurrences(retval@, '('),
            close == occurrences(retval@, ')'),
            open + close + occurrences(retval@, '\n') <= retval@.len(),
            tokenizer.line_index == old(tokenizer).line_index + occurrences(retval@, '\n'),
            tokenizer.line_position == (if occurrences(retval@, '\n') > 0 {
                0
            } else {
                old(tokenizer).line_position as int
            }),
            value_end(c, p0, p0) == value_end(c, p0, tokenizer.position as int),
        decreases c.len() - tokenizer.position,
    {
        let ch = tokenizer.content[tokenizer.position];
        let ghost before = retval@;
        if ch == '(' {
            open = open + 1;
        } else if ch == ')' {
            close = close + 1;
        } else if ch == '\n' {
            tokenizer.line_index = tokenizer.line_index + 1;
            tokenizer.line_position = 0;
        }
        retval.push(ch);
        tokenizer.position = tokenizer.position + 1;
        assert(retval@.drop_last() =~= before);
        assert(retval@ =~= c.subrange(p0, tokenizer.position as int));
    }
    string_from_chars(retval.as_slice())
}

/// Reads the rest of the line and moves past its newline; the newline is
/// not part of the result.
pub fn get_line(tokenizer: &mut Tokenizer) -> (res: String)
    requires
        old(tokenizer).wf(),
    ensures
        final(tokenizer).wf(),
        final(tokenizer).content@ == old(tokenizer).content@,
        final(tokenizer).file == old(tokenizer).file,
        final(tokenizer).seen_files@ == old(tokenizer).seen_files@,
        ({
            let c = old(tokenizer).content@;
            let p0 = old(tokenizer).position as int;
            let e = line_end(c, p0);
            &&& res@ == c.subrange(p0, e)
            &&& e < c.len() ==> final(tokenizer).position == e + 1 && final(tokenizer).line_index
                == old(tokenizer).line_index + 1 && final(tokenizer).line_position == 0
            &&& final(tokenizer).position >= p0
            &&& e >= c.len() ==> final(tokenizer).position == e && final(tokenizer).line_index
                == old(tokenizer).line_index && final(tokenizer).line_position == old(
                tokenizer,
            ).line_position
        }),
{
    let ghost p0 = tokenizer.position as int;
    let ghost c = tokenizer.content@;
    let mut retval: Vec<char> = Vec::new();
    while tokenizer.position < tokenizer.content.len() && tokenizer.content[tokenizer.position] != '\n'
        invariant
            tokenizer.wf(),
            c == tokenizer.content@,
            c == old(tokenizer).content@,
            tokenizer.file == old(tokenizer).file,
            tokenizer.seen_files@ == old(tokenizer).seen_files@,
            tokenizer.line_index == old(tokenizer).line_index,
            tokenizer.line_position == old(tokenizer).line_position,
            p0 == old(tokenizer).position,
            p0 <= tokenizer.position,
            retval@ == c.subrange(p0, tokenizer.position as int),
            line_end(c, p0) == line_end(c, tokenizer.position as int),
        decreases c.len() - tokenizer.position,
    {
        retval.push(tokenizer.content[tokenizer.position]);
        tokenizer.position = tokenizer.position + 1;
        assert(retval@ =~= c.subrange(p0, tokenizer.position as int));
    }
    if tokenizer.position < tokenizer.content.len() {
        tokenizer.position = tokenizer.position + 1;
        tokenizer.line_index = tokenizer.line_index + 1;
        tokenizer.line_position = 0;
    }
    string_from_chars(retval.as_slice())
}

/// Reads a word (see `word_scan`), skipping white space before and after it.
pub fn get_string(tokenizer: &mut Tokenizer) -> (res: String)
    requires
        old(tokenizer).wf(),
    ensures
        final(tokenizer).wf(),
        final(tokenizer).moved_from(*old(tokenizer)),
        ({
            let c = old(tokenizer).content@;
            let a = skip_ws(c, old(tokenizer).position as int);
            let (b, w) = word_scan(c, a, false, Seq::<char>::empty());
            &&& res@ == w
            &&& final(tokenizer).position == skip_ws(c, b)
        }),
        final(tokenizer).position >= old(tokenizer).position,
{
    consume_whitespaces(tokenizer);
    let ghost t1 = *tokenizer;
    let ghost c = tokenizer.content@;
    let ghost a = tokenizer.position as int;
    let mut retval: Vec<char> = Vec::new();
    let mut quote = false;
    let mut done = false;
    while !done && tokenizer.position < tokenizer.content.len()
        invariant
            tokenizer.wf(),
            c == tokenizer.content@,
            c == old(tokenizer).content@,
            tokenizer.file == old(tokenizer).file,
            tokenizer.seen_files@ == old(tokenizer).seen_files@,
            a <= tokenizer.position,
            tokenizer.line_index == t1.line_index,
            tokenizer.line_position == t1.line_position + (tokenizer.position - a),
            (t1.line_index as int, t1.line_position as int) == advance(c, old(tokenizer).position as int, a, old(tokenizer).line_index as int, old(tokenizer).line_position as int),
            forall|j: int| a <= j < tokenizer.position ==> c[j] != '\n',
            done ==> word_scan(c, a, false, Seq::<char>::empty()) == (tokenizer.position as int, retval@),
            !done ==> word_scan(c, a, false, Seq::<char>::empty()) == word_scan(c, tokenizer.position as int, quote, retval@),
        decreases c.len() - tokenizer.position, if done { 0int } else { 1int },
    {
        let ch = tokenizer.content[tokenizer.position];
        if ch == '\n' {
            done = true;
        } else if ch == '"' {
            if retval.len() == 0 {
                quote = true;
                tokenizer.position = tokenizer.position + 1;
                tokenizer.line_position = tokenizer.line_position + 1;
            } else if quote {
                tokenizer.position = tokenizer.position + 1;
                tokenizer.line_position = tokenizer.line_position + 1;
                done = true;
            } else {
                tokenizer.position = tokenizer.position + 1;
                tokenizer.line_position = tokenizer.line_position + 1;
            }
        } else if (is_whitespace(ch) || is_numeric(ch) || ch == '.' || ch == '-' || ch == ';') && !quote {
            done = true;
        } else {
            retval.push(ch);
            tokenizer.position = tokenizer.position + 1;
            tokenizer.line_position = tokenizer.line_position + 1;
        }
    }
    proof {
        lemma_advance_no_newline(c, old(tokenizer).position as int, a, tokenizer.position as int, old(tokenizer).line_index as int, old(tokenizer).line_position as int);
    }
    let ghost pb = tokenizer.position as int;
    proof {
        lemma_word_scan(c, a, false, Seq::<char>::empty());
    }
    consume_whitespaces(tokenizer);
    proof {
        lemma_advance_split(c, old(tokenizer).position as int, pb, tokenizer.position as int, old(tokenizer).line_index as int, old(tokenizer).line_position as int);
    }
    string_from_chars(retval.as_slice())
}

/// Reading a line segment without newlines moves along the line.
pub proof fn lemma_advance_no_newline(c: Seq<char>, p0: int, a: int, b: int, li: int, lp: int)
    requires
        p0 <= a <= b <= c.len(),
        forall|j: int| a <= j < b ==> c[j] != '\n',
    ensures
        advance(c, p0, b, li, lp) == (advance(c, p0, a, li, lp).0, advance(c, p0, a, li, lp).1 + (b - a)),
    decreases b - a,
{
    if b > a {
        lemma_advance_no_newline(c, p0, a, b - 1, li, lp);
    }
}

/// Reading `[p0, b)` is reading `[p0, a)` and then `[a, b)`.
pub proof fn lemma_advance_split(c: Seq<char>, p0: int, a: int, b: int, li: int, lp: int)
    requires
        p0 <= a <= b,
    ensures
        advance(c, p0, b, li, lp) == advance(c, a, b, advance(c, p0, a, li, lp).0, advance(c, p0, a, li, lp).1),
    decreases b - a,
{
    if b > a {
        lemma_advance_split(c, p0, a, b - 1, li, lp);
    }
}

/// Bounds of `line_end`: it is the first newline from `i` on, or the end.
pub proof fn lemma_line_end(c: Seq<char>, i: int)
    requires
        0 <= i <= c.len(),
    ensures
        i <= line_end(c, i) <= c.len(),
        forall|j: int| i <= j < line_end(c, i) ==> c[j] != '\n',
        line_end(c, i) < c.len() ==> c[line_end(c, i)] == '\n',
    decreases c.len() - i,
{
    if i < c.len() && c[i] != '\n' {
        lemma_line_end(c, i + 1);
    }
}

pub proof fn lemma_skip_ws(c: Seq<char>, i: int)
    requires
        0 <= i <= c.len(),
    ensures
        i <= skip_ws(c, i) <= c.len(),
    decreases c.len() - i,
{
    if i < c.len() && is_ws(c[i]) && c[i] != '\n' {
        lemma_skip_ws(c, i + 1);
    }
}

pub proof fn lemma_skip_blank(c: Seq<char>, i: int)
    requires
        0 <= i <= c.len(),
    ensures
        i <= skip_blank(c, i) <= c.len(),
    decreases c.len() - i,
{
    if i < c.len() && is_ws(c[i]) {
        lemma_skip_blank(c, i + 1);
    }
}

pub proof fn lemma_word_scan(c: Seq<char>, i: int, quote: bool, word: Seq<char>)
    requires
        0 <= i <= c.len(),
    ensures
        i <= word_scan(c, i, quote, word).0 <= c.len(),
    decreases c.len() - i,
{
    if i < c.len() {
        let ch = c[i];
        if ch == '\n' {
        } else if ch == '"' {
            if word.len() == 0 {
                lemma_word_scan(c, i + 1, true, word);
            } else if quote {
            } else {
                lemma_word_scan(c, i + 1, quote, word);
            }
        } else if (is_ws(ch) || numeric(ch) || ch == '.' || ch == '-' || ch == ';') && !quote {
        } else {
            lemma_word_scan(c, i + 1, quote, word.push(ch));
        }
    }
}

} // verus!
