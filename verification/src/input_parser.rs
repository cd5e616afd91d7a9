//! Textual puzzle parsing: reading tile numbers and a size declaration from
//! whitespace-separated words, and validating an assembled grid.

use vstd::prelude::*;
use vstd::string::StrSliceExecFns;

use crate::sums::{lemma_sum_range_extend, lemma_sum_range_nonneg, sum_range};
use crate::types::{Atom, ParseError, ParsedPuzzle, Puzzle, wf_grid};

verus! {

/// A decimal digit.
pub open spec fn is_digit(c: char) -> bool {
    '0' <= c && c <= '9'
}

/// The value of the decimal numeral in the first `i` characters.
pub open spec fn dec_val(s: Seq<char>, i: int) -> int
    decreases i,
{
    if i <= 0 {
        0
    } else {
        dec_val(s, i - 1) * 10 + (s[i - 1] as int - 48)
    }
}

/// The digits of a numeral only ever extend its value upward.
proof fn lemma_dec_val_monotone(s: Seq<char>, i: int, j: int)
    requires
        0 <= i <= j <= s.len(),
        forall|k: int| 0 <= k < j ==> is_digit(#[trigger] s[k]),
    ensures
        0 <= dec_val(s, i) <= dec_val(s, j),
    decreases j - i,
{
    if i == j {
        lemma_dec_val_nonneg(s, i);
    } else {
        lemma_dec_val_monotone(s, i, j - 1);
        assert(dec_val(s, j) == dec_val(s, j - 1) * 10 + (s[j - 1] as int - 48));
        assert(dec_val(s, j - 1) * 10 >= dec_val(s, j - 1)) by (nonlinear_arith)
            requires
                dec_val(s, j - 1) >= 0,
        ;
    }
}

proof fn lemma_dec_val_nonneg(s: Seq<char>, i: int)
    requires
        0 <= i <= s.len(),
        forall|k: int| 0 <= k < i ==> is_digit(#[trigger] s[k]),
    ensures
        dec_val(s, i) >= 0,
    decreases i,
{
    if i > 0 {
        lemma_dec_val_nonneg(s, i - 1);
        assert(dec_val(s, i - 1) * 10 >= 0) by (nonlinear_arith)
            requires
                dec_val(s, i - 1) >= 0,
        ;
    }
}

/// The numeral body of a word: everything after one optional leading `+`.
pub open spec fn numeral_body(s: Seq<char>) -> Seq<char> {
    if s.len() > 0 && s[0] == '+' {
        s.drop_first()
    } else {
        s
    }
}

/// What parsing a word as a tile number yields: the word must be an optional
/// `+` followed by one or more decimal digits, with a value that fits.
pub open spec fn spec_parse_atom(s: Seq<char>) -> Option<Atom> {
    let b = numeral_body(s);
    if b.len() == 0 {
        None
    } else if exists|k: int| 0 <= k < b.len() && !is_digit(b[k]) {
        None
    } else if dec_val(b, b.len() as int) > 0xffff {
        None
    } else {
        Some(dec_val(b, b.len() as int) as Atom)
    }
}

/// Parses a word as a tile number.
pub fn parse_atom(word: &str) -> (r: Option<Atom>)
    ensures
        r == spec_parse_atom(word@),
{
    let len = word.unicode_len();
    let mut start: usize = 0;
    if len > 0 {
        if word.get_char(0) == '+' {
            start = 1;
        }
    }
    let ghost b: Seq<char> = numeral_body(word@);
    proof {
        assert(b =~= word@.subrange(start as int, len as int));
    }
    if start == len {
        return None;
    }
    let mut acc: u32 = 0;
    let mut i: usize = start;
    while i < len
        invariant
            start <= i <= len,
            len == word@.len(),
            start == 0 || start == 1,
            start == 1 ==> word@[0] == '+',
            b == numeral_body(word@),
            b =~= word@.subrange(start as int, len as int),
            forall|k: int| 0 <= k < i - start ==> is_digit(#[trigger] b[k]),
            acc as int == dec_val(b, i - start),
            acc <= 0xffff,
        decreases len - i,
    {
        let c = word.get_char(i);
        let d = c as u32;
        proof {
            assert(b[i - start] == word@[i as int]);
        }
        if d < 48 || d > 57 {
            proof {
                assert(!is_digit(b[i - start]));
            }
            return None;
        }
        acc = acc * 10 + (d - 48);
        if acc > 0xffff {
            proof {
                if exists|k: int| 0 <= k < b.len() && !is_digit(b[k]) {
                } else {
                    assert(forall|k: int| 0 <= k < b.len() ==> is_digit(#[trigger] b[k]));
                    lemma_dec_val_monotone(b, i + 1 - start, b.len() as int);
                }
            }
            return None;
        }
        i = i + 1;
    }
    proof {
        assert(i - start == b.len());
    }
    Some(acc as Atom)
}

/// One step of reading a size declaration: what the word does to the state
/// and which error, if any, it raises.
pub open spec fn pps_from(words: Seq<Seq<char>>, i: int, size: Atom, had: bool) -> (
    Atom,
    bool,
    Seq<ParseError>,
)
    decreases words.len() - i,
{
    if i < 0 || i >= words.len() {
        (size, had, Seq::empty())
    } else {
        let (size1, had1, err) = if had {
            (size, had, seq![ParseError::SizeSyntax])
        } else {
            match spec_parse_atom(words[i]) {
                Some(v) => if v <= 2 {
                    (size, false, seq![ParseError::SizeInvalid])
                } else {
                    (v, true, Seq::empty())
                },
                None => (size, false, seq![ParseError::NumberInvalid]),
            }
        };
        let rest = pps_from(words, i + 1, size1, had1);
        (rest.0, rest.1, err + rest.2)
    }
}

/// Reads a size declaration from one line's words: exactly one number of
/// three or more. Words after the first valid size are syntax errors; words
/// before it are invalid numbers or too-small sizes. The size is written as
/// soon as a valid one is seen, even if later words raise errors.
pub fn parse_puzzle_size(size: &mut Atom, line: &Vec<String>) -> (r: Option<Vec<ParseError>>)
    ensures
        *final(size) == pps_from(line.deep_view(), 0, *old(size), false).0,
        match r {
            None => pps_from(line.deep_view(), 0, *old(size), false).2.len() == 0,
            Some(e) => e@ == pps_from(line.deep_view(), 0, *old(size), false).2 && e@.len() > 0,
        },
{
    let ghost words: Seq<Seq<char>> = line.deep_view();
    let ghost size0: Atom = *size;
    let mut vec_err: Vec<ParseError> = Vec::new();
    let mut had_parse_size: bool = false;

    let n = line.len();
    let mut i: usize = 0;
    while i < n
        invariant
            0 <= i <= n,
            n == words.len(),
            words == line.deep_view(),
            pps_from(words, 0, size0, false).0 == pps_from(words, i as int, *size, had_parse_size).0,
            pps_from(words, 0, size0, false).1 == pps_from(words, i as int, *size, had_parse_size).1,
            pps_from(words, 0, size0, false).2 == vec_err@ + pps_from(
                words,
                i as int,
                *size,
                had_parse_size,
            ).2,
        decreases n - i,
    {
        proof {
            assert(words[i as int] == line.deep_view()[i as int]);
            assert(line.deep_view()[i as int] == line@[i as int]@);
        }
        if had_parse_size {
            vec_err.push(ParseError::SizeSyntax);
        } else {
            match parse_atom(line[i].as_str()) {
                Some(val) => {
                    if val <= 2 {
                        vec_err.push(ParseError::SizeInvalid);
                    } else {
                        *size = val;
                        had_parse_size = true;
                    }
                },
                None => {
                    vec_err.push(ParseError::NumberInvalid);
                },
            }
        }
        i = i + 1;
    }
    if vec_err.len() == 0 {
        return None;
    }
    Some(vec_err)
}

/// `1` when the word at `i` does not parse as a tile number.
pub open spec fn pp_fail_at(words: Seq<Seq<char>>, i: int) -> int {
    if spec_parse_atom(words[i]) is None {
        1int
    } else {
        0int
    }
}

pub open spec fn pp_fail_fn(words: Seq<Seq<char>>) -> spec_fn(int) -> int {
    |i: int| pp_fail_at(words, i)
}

/// How many words of the line fail to parse.
pub open spec fn pp_fails(words: Seq<Seq<char>>) -> int {
    sum_range(0, words.len() as int, pp_fail_fn(words))
}

/// The tile number a word parses to, or `0` where it does not parse.
pub open spec fn atom_or_zero(s: Seq<char>) -> Atom {
    match spec_parse_atom(s) {
        Some(v) => v,
        None => 0,
    }
}

/// The tile numbers of a fully parsed line.
pub open spec fn pp_vals(words: Seq<Seq<char>>) -> Seq<Atom> {
    Seq::new(words.len(), |i: int| atom_or_zero(words[i]))
}

/// A line of tile numbers is accepted when every word parses and the line
/// holds exactly `size` of them.
pub open spec fn pp_ok(words: Seq<Seq<char>>, size: Atom) -> bool {
    pp_fails(words) == 0 && words.len() == size
}

/// The errors a rejected line of tile numbers raises: one per unparsable
/// word, and one more when the word count differs from the size.
pub open spec fn pp_errs(words: Seq<Seq<char>>, size: Atom) -> Seq<ParseError> {
    Seq::new(pp_fails(words) as nat, |i: int| ParseError::NumberInvalid) + (if words.len() != size {
        seq![ParseError::NumberPerLine]
    } else {
        Seq::empty()
    })
}

/// Reads one row of tile numbers from a line's words and appends it to the
/// grid being assembled; a rejected line leaves the grid untouched.
pub fn parse_puzzle(puzzle: &mut Puzzle, size: &Atom, line: &Vec<String>) -> (r: Option<
    Vec<ParseError>,
>)
    ensures
        pp_ok(line.deep_view(), *size) ==> r is None && final(puzzle)@ == old(puzzle)@ + pp_vals(
            line.deep_view(),
        ),
        !pp_ok(line.deep_view(), *size) ==> final(puzzle)@ == old(puzzle)@ && match r {
            Some(e) => e@ == pp_errs(line.deep_view(), *size) && e@.len() > 0,
            None => false,
        },
{
    let ghost words: Seq<Seq<char>> = line.deep_view();
    let mut vec_err: Vec<ParseError> = Vec::new();
    let mut vec_cur_line: Vec<Atom> = Vec::new();

    let n = line.len();
    let mut i: usize = 0;
    while i < n
        invariant
            0 <= i <= n,
            n == words.len(),
            words == line.deep_view(),
            vec_err@.len() as int == sum_range(0, i as int, pp_fail_fn(words)),
            vec_err@ =~= Seq::new(vec_err@.len(), |k: int| ParseError::NumberInvalid),
            vec_cur_line@.len() == i - vec_err@.len(),
            vec_err@.len() == 0 ==> vec_cur_line@ =~= pp_vals(words).take(i as int),
        decreases n - i,
    {
        proof {
            assert(words[i as int] == line@[i as int]@);
            lemma_sum_range_extend(0, i as int, pp_fail_fn(words));
            lemma_sum_range_nonneg(0, i as int, pp_fail_fn(words));
        }
        match parse_atom(line[i].as_str()) {
            Some(val) => {
                vec_cur_line.push(val);
            },
            None => {
                vec_err.push(ParseError::NumberInvalid);
            },
        }
        i = i + 1;
    }
    proof {
        lemma_sum_range_nonneg(0, n as int, pp_fail_fn(words));
    }
    if vec_cur_line.len() == *size as usize && vec_err.len() == 0 {
        proof {
            assert(pp_vals(words).take(n as int) =~= pp_vals(words));
        }
        puzzle.append(&mut vec_cur_line);
        return None;
    }
    if line.len() != *size as usize {
        vec_err.push(ParseError::NumberPerLine);
    }
    proof {
        assert(vec_err@ =~= pp_errs(words, *size));
    }
    Some(vec_err)
}

/// The verdict on an assembled grid, in the order the checks run: the size
/// must be playable, the cell count exact, every value on the board, and no
/// value repeated.
pub open spec fn spec_puzzle_check(size: Atom, c: Seq<Atom>) -> Option<ParseError> {
    if size < 3 {
        Some(ParseError::Size)
    } else if c.len() != size as int * size as int {
        Some(ParseError::NumberOfLines)
    } else if exists|i: int| 0 <= i < c.len() && (#[trigger] c[i]) as int >= size as int * size as int {
        Some(ParseError::InvalidElement)
    } else if exists|i: int, j: int| 0 <= i < j < c.len() && c[i] == c[j] {
        Some(ParseError::DuplicatedValue)
    } else {
        None
    }
}

/// Checks an assembled grid, reporting the first failed check, or nothing
/// when the grid is a well-formed puzzle of a playable size.
pub fn is_puzzle_correct(puzzle: &ParsedPuzzle) -> (r: Option<ParseError>)
    requires
        puzzle.size <= 255,
    ensures
        r == spec_puzzle_check(puzzle.size, puzzle.container@),
        r is None ==> wf_grid(puzzle.container@, puzzle.size as int) && puzzle.size >= 3,
{
    let size = puzzle.size;
    if size < 3 {
        return Some(ParseError::Size);
    }
    proof {
        assert(9 <= size as int * size as int <= 0xfe01) by (nonlinear_arith)
            requires
                3 <= size as int <= 255,
        ;
    }
    let max_number: usize = size as usize * size as usize;
    let n = puzzle.container.len();
    if n != max_number {
        return Some(ParseError::NumberOfLines);
    }
    let mut i: usize = 0;
    while i < n
        invariant
            0 <= i <= n,
            n == puzzle.container@.len(),
            n == max_number,
            3 <= puzzle.size <= 255,
            max_number as int == puzzle.size as int * puzzle.size as int,
            9 <= max_number <= 0xfe01,
            forall|k: int|
                0 <= k < i ==> ((#[trigger] puzzle.container@[k]) as int) < max_number as int,
        decreases n - i,
    {
        if puzzle.container[i] > (max_number - 1) as Atom {
            return Some(ParseError::InvalidElement);
        }
        i = i + 1;
    }
    let mut p: usize = 0;
    while p < n
        invariant
            0 <= p <= n,
            n == puzzle.container@.len(),
            3 <= puzzle.size <= 255,
            n as int == puzzle.size as int * puzzle.size as int,
            forall|k: int| 0 <= k < n ==> ((#[trigger] puzzle.container@[k]) as int) < n as int,
            forall|a: int, b: int|
                0 <= a < b < n && a < p ==> puzzle.container@[a] != puzzle.container@[b],
        decreases n - p,
    {
        let mut q: usize = p + 1;
        while q < n
            invariant
                p < q <= n,
                p < n,
                n == puzzle.container@.len(),
                3 <= puzzle.size <= 255,
                n as int == puzzle.size as int * puzzle.size as int,
                forall|k: int| 0 <= k < n ==> ((#[trigger] puzzle.container@[k]) as int) < n as int,
                forall|a: int, b: int|
                    0 <= a < b < n && a < p ==> puzzle.container@[a] != puzzle.container@[b],
                forall|b: int| (p as int) < b < q ==> puzzle.container@[p as int]
                    != puzzle.container@[b],
            decreases n - q,
        {
            if puzzle.container[p] == puzzle.container[q] {
                return Some(ParseError::DuplicatedValue);
            }
            q = q + 1;
        }
        p = p + 1;
    }
    None
}


/// A Unicode whitespace character, as line splitting treats it.
pub open spec fn spec_is_space(c: char) -> bool {
    ||| ('\u{9}' <= c && c <= '\u{d}')
    ||| c == ' '
    ||| c == '\u{85}'
    ||| c == '\u{a0}'
    ||| c == '\u{1680}'
    ||| ('\u{2000}' <= c && c <= '\u{200a}')
    ||| c == '\u{2028}'
    ||| c == '\u{2029}'
    ||| c == '\u{202f}'
    ||| c == '\u{205f}'
    ||| c == '\u{3000}'
}

/// Whether a character separates words.
fn is_space(c: char) -> (r: bool)
    ensures
        r == spec_is_space(c),
{
    ('\u{9}' <= c && c <= '\u{d}') || c == ' ' || c == '\u{85}' || c == '\u{a0}' || c
        == '\u{1680}' || ('\u{2000}' <= c && c <= '\u{200a}') || c == '\u{2028}' || c
        == '\u{2029}' || c == '\u{202f}' || c == '\u{205f}' || c == '\u{3000}'
}

/// The index of the first `#`, or the length when none occurs: everything
/// before it is the line's content, everything after a comment.
pub open spec fn hash_cut(s: Seq<char>) -> int
    decreases s.len(),
{
    if s.len() == 0 {
        0
    } else if s[0] == '#' {
        0
    } else {
        1 + hash_cut(s.drop_first())
    }
}

/// `hash_cut` is exactly the first `#` position, or the length.
proof fn lemma_hash_cut(s: Seq<char>, c: int)
    requires
        0 <= c <= s.len(),
        forall|k: int| 0 <= k < c ==> s[k] != '#',
        c < s.len() ==> s[c] == '#',
    ensures
        hash_cut(s) == c,
    decreases s.len(),
{
    if s.len() == 0 {
    } else if s[0] == '#' {
    } else {
        assert(forall|k: int| 0 <= k < s.drop_first().len() ==> s.drop_first()[k] == s[k + 1]);
        lemma_hash_cut(s.drop_first(), c - 1);
    }
}

/// The length of the word starting at `i`: how many non-space characters
/// stand there in a row.
pub open spec fn token_run(s: Seq<char>, i: int) -> nat
    decreases s.len() - i,
{
    if i < 0 || i >= s.len() || spec_is_space(s[i]) {
        0
    } else {
        1 + token_run(s, i + 1)
    }
}

/// `token_run` is exactly the distance to the next space or the end.
proof fn lemma_token_run(s: Seq<char>, i: int, j: int)
    requires
        0 <= i <= j <= s.len(),
        forall|k: int| i <= k < j ==> !spec_is_space(#[trigger] s[k]),
        j == s.len() || spec_is_space(s[j]),
    ensures
        token_run(s, i) == j - i,
    decreases j - i,
{
    if i < j {
        lemma_token_run(s, i + 1, j);
    }
}

/// The words of `s` from position `i` on: maximal runs of non-space
/// characters.
pub open spec fn spec_tokens(s: Seq<char>, i: int) -> Seq<Seq<char>>
    decreases s.len() - i,
    via spec_tokens_decreases
{
    if i < 0 || i >= s.len() {
        Seq::empty()
    } else if spec_is_space(s[i]) {
        spec_tokens(s, i + 1)
    } else {
        seq![s.subrange(i, i + token_run(s, i))] + spec_tokens(s, i + token_run(s, i))
    }
}

/// A word never runs past the end of the line.
proof fn lemma_token_run_le(s: Seq<char>, i: int)
    requires
        0 <= i <= s.len(),
    ensures
        token_run(s, i) <= s.len() - i,
    decreases s.len() - i,
{
    if i < s.len() && !spec_is_space(s[i]) {
        lemma_token_run_le(s, i + 1);
    }
}

#[via_fn]
proof fn spec_tokens_decreases(s: Seq<char>, i: int) {
    if 0 <= i && i < s.len() && !spec_is_space(s[i]) {
        assert(token_run(s, i) == 1 + token_run(s, i + 1));
        lemma_token_run_le(s, i);
    }
}

/// The words of one input line: whatever stands before the first `#`, split
/// at whitespace.
pub open spec fn spec_line_tokens(s: Seq<char>) -> Seq<Seq<char>> {
    spec_tokens(s.subrange(0, hash_cut(s)), 0)
}

/// Splits a line into its words: a `#` starts a comment, whitespace
/// separates.
fn tokenize(line: &str) -> (r: Vec<String>)
    ensures
        r.deep_view() == spec_line_tokens(line@),
{
    let len = line.unicode_len();
    let mut cut: usize = 0;
    while cut < len
        invariant_except_break
            0 <= cut <= len,
            len == line@.len(),
            forall|k: int| 0 <= k < cut ==> line@[k] != '#',
        ensures
            0 <= cut <= len,
            len == line@.len(),
            forall|k: int| 0 <= k < cut ==> line@[k] != '#',
            cut < len ==> line@[cut as int] == '#',
        decreases len - cut,
    {
        if line.get_char(cut) == '#' {
            break ;
        }
        cut = cut + 1;
    }
    proof {
        lemma_hash_cut(line@, cut as int);
    }
    let ghost h: Seq<char> = line@.subrange(0, cut as int);

    let mut tokens: Vec<String> = Vec::new();
    let mut i: usize = 0;
    while i < cut
        invariant
            0 <= i <= cut <= len,
            len == line@.len(),
            h == line@.subrange(0, cut as int),
            h.len() == cut,
            spec_tokens(h, 0) == tokens.deep_view() + spec_tokens(h, i as int),
        decreases cut - i,
    {
        let c = line.get_char(i);
        if is_space(c) {
            proof {
                assert(h[i as int] == line@[i as int]);
                assert(spec_tokens(h, i as int) == spec_tokens(h, i + 1));
            }
            i = i + 1;
        } else {
            let start = i;
            let mut j = i + 1;
            while j < cut
                invariant_except_break
                    start < j <= cut <= len,
                    len == line@.len(),
                    h == line@.subrange(0, cut as int),
                    h.len() == cut,
                    forall|k: int| start <= k < j ==> !spec_is_space(#[trigger] h[k]),
                ensures
                    start < j <= cut,
                    forall|k: int| start <= k < j ==> !spec_is_space(#[trigger] h[k]),
                    j == cut || spec_is_space(h[j as int]),
                decreases cut - j,
            {
                if is_space(line.get_char(j)) {
                    proof {
                        assert(h[j as int] == line@[j as int]);
                    }
                    break ;
                }
                proof {
                    assert(h[j as int] == line@[j as int]);
                }
                j = j + 1;
            }
            proof {
                assert(h[start as int] == line@[start as int]);
                lemma_token_run(h, start as int, j as int);
            }
            let tok = line.substring_char(start, j).to_owned();
            proof {
                assert(tok@ =~= h.subrange(start as int, j as int));
            }
            tokens.push(tok);
            proof {
                assert(spec_tokens(h, start as int) == seq![
                    h.subrange(start as int, start + token_run(h, start as int)),
                ] + spec_tokens(h, start + token_run(h, start as int)));
                assert(tokens.deep_view() =~= tokens.deep_view().take(
                    tokens.deep_view().len() - 1,
                ) + seq![tok@]);
                assert(spec_tokens(h, 0) =~= tokens.deep_view() + spec_tokens(h, j as int));
            }
            i = j;
        }
    }
    proof {
        assert(spec_tokens(h, i as int) =~= Seq::<Seq<char>>::empty());
        assert(tokens.deep_view() =~= tokens.deep_view() + Seq::<Seq<char>>::empty());
    }
    tokens
}

/// The size a line leaves behind: a size line may set it, a tile line keeps
/// it.
pub open spec fn pl_size(size0: Atom, toks: Seq<Seq<char>>) -> Atom {
    if size0 == 0 {
        pps_from(toks, 0, size0, false).0
    } else {
        size0
    }
}

/// The grid a line leaves behind: an accepted tile line appends its row.
pub open spec fn pl_container(size0: Atom, cont0: Seq<Atom>, toks: Seq<Seq<char>>) -> Seq<Atom> {
    if size0 == 0 {
        cont0
    } else if pp_ok(toks, size0) {
        cont0 + pp_vals(toks)
    } else {
        cont0
    }
}

/// The errors a line raises.
pub open spec fn pl_errs(size0: Atom, toks: Seq<Seq<char>>) -> Seq<ParseError> {
    if size0 == 0 {
        pps_from(toks, 0, size0, false).2
    } else if pp_ok(toks, size0) {
        Seq::empty()
    } else {
        pp_errs(toks, size0)
    }
}

/// Everything `parse_line` promises: the size and grid it leaves behind and
/// the errors it reports, all determined by the line's words.
pub open spec fn pl_post(
    size0: Atom,
    cont0: Seq<Atom>,
    p: ParsedPuzzle,
    line: Seq<char>,
    r: Option<Vec<ParseError>>,
) -> bool {
    let toks = spec_line_tokens(line);
    &&& p.size == pl_size(size0, toks)
    &&& p.container@ == pl_container(size0, cont0, toks)
    &&& match r {
        None => pl_errs(size0, toks).len() == 0,
        Some(e) => e@ == pl_errs(size0, toks) && e@.len() > 0,
    }
}

/// Parses one input line into the puzzle being assembled: the first line
/// declares the size, every later one contributes a row of tiles. A `#`
/// starts a comment; words are whitespace-separated.
pub fn parse_line(puzzle: &mut ParsedPuzzle, line: &str) -> (r: Option<Vec<ParseError>>)
    ensures
        pl_post(old(puzzle).size, old(puzzle).container@, *final(puzzle), line@, r),
{
    let toks = tokenize(line);
    if puzzle.size == 0 {
        parse_puzzle_size(&mut puzzle.size, &toks)
    } else {
        let size = puzzle.size;
        parse_puzzle(&mut puzzle.container, &size, &toks)
    }
}
} // verus!
