//! Reading the performance model's report: its lines are split into words
//! at white space, and the words that hold counts are read as decimal
//! numbers.
use crate::links::{parse_tile_kind, tile_kind_named, Connection};
use vstd::prelude::*;

verus! {

/// Whether `c` has the Unicode `White_Space` property.
pub open spec fn white_space(c: char) -> bool {
    ||| '\u{9}' <= c <= '\u{d}'
    ||| c == ' '
    ||| c == '\u{85}'
    ||| c == '\u{a0}'
    ||| c == '\u{1680}'
    ||| '\u{2000}' <= c <= '\u{200a}'
    ||| c == '\u{2028}'
    ||| c == '\u{2029}'
    ||| c == '\u{202f}'
    ||| c == '\u{205f}'
    ||| c == '\u{3000}'
}

/// Whether `c` has the Unicode `White_Space` property.
pub fn is_white_space(c: char) -> (b: bool)
    ensures
        b == white_space(c),
{
    ('\u{9}' <= c && c <= '\u{d}') || c == ' ' || c == '\u{85}' || c == '\u{a0}' || c == '\u{1680}'
        || ('\u{2000}' <= c && c <= '\u{200a}') || c == '\u{2028}' || c == '\u{2029}' || c
        == '\u{202f}' || c == '\u{205f}' || c == '\u{3000}'
}

/// The words of `s`: its maximal runs of characters that are not white
/// space, in order.  The last character either is white space and adds
/// nothing, extends the last word when the character before it is part of a
/// word, or starts a word of its own.
pub open spec fn words(s: Seq<char>) -> Seq<Seq<char>>
    decreases s.len(),
{
    if s.len() == 0 {
        seq![]
    } else {
        let w = words(s.drop_last());
        let c = s.last();
        if white_space(c) {
            w
        } else if s.len() >= 2 && !white_space(s[s.len() - 2]) {
            w.update(w.len() - 1, w.last().push(c))
        } else {
            w.push(seq![c])
        }
    }
}

/// Every word of a text is non-empty and holds no white space.
pub proof fn lemma_words_clean(s: Seq<char>)
    ensures
        forall|i: int|
            0 <= i < words(s).len() ==> #[trigger] words(s)[i].len() > 0 && forall|j: int|
                0 <= j < words(s)[i].len() ==> !white_space(words(s)[i][j]),
    decreases s.len(),
{
    if s.len() > 0 {
        let t = s.drop_last();
        lemma_words_clean(t);
        lemma_words_end(t);
        let w = words(t);
        let c = s.last();
        if !white_space(c) && s.len() >= 2 && !white_space(s[s.len() - 2]) {
            assert(t.last() == s[s.len() - 2]);
            assert forall|i: int| 0 <= i < words(s).len() implies #[trigger] words(s)[i].len() > 0
                && forall|j: int| 0 <= j < words(s)[i].len() ==> !white_space(words(s)[i][j]) by {
                if i < w.len() - 1 {
                    assert(words(s)[i] == w[i]);
                } else {
                    assert(words(s)[i] == w.last().push(c));
                    assert forall|j: int| 0 <= j < words(s)[i].len() implies !white_space(words(s)[i][j]) by {
                        if j < w.last().len() {
                            assert(words(s)[i][j] == w[w.len() - 1][j]);
                        }
                    }
                }
            }
        } else if !white_space(c) {
            assert forall|i: int| 0 <= i < words(s).len() implies #[trigger] words(s)[i].len() > 0
                && forall|j: int| 0 <= j < words(s)[i].len() ==> !white_space(words(s)[i][j]) by {
                if i < w.len() {
                    assert(words(s)[i] == w[i]);
                } else {
                    assert(words(s)[i] == seq![c]);
                }
            }
        }
    }
}

/// A text that ends in a character of a word has at least one word.
proof fn lemma_words_end(s: Seq<char>)
    ensures
        s.len() > 0 && !white_space(s.last()) ==> words(s).len() > 0,
    decreases s.len(),
{
    if s.len() > 0 {
        lemma_words_end(s.drop_last());
        if s.len() >= 2 {
            assert(s.drop_last().last() == s[s.len() - 2]);
        }
    }
}

/// The character sequences that a list of words holds.
pub open spec fn texts(v: Seq<Vec<char>>) -> Seq<Seq<char>> {
    Seq::new(v.len(), |i: int| v[i]@)
}

/// The words of `line`.
pub fn split_words(line: &str) -> (w: Vec<Vec<char>>)
    ensures
        texts(w@) == words(line@),
{
    let n = line.unicode_len();
    let mut w: Vec<Vec<char>> = Vec::new();
    let mut in_word = false;
    let mut i: usize = 0;
    while i < n
        invariant
            n == line@.len(),
            i <= n,
            texts(w@) == words(line@.take(i as int)),
            in_word == (i > 0 && !white_space(line@[i - 1])),
            in_word ==> w@.len() > 0,
        decreases n - i,
    {
        let c = line.get_char(i);
        let ghost before = line@.take(i as int);
        let ghost after = line@.take(i + 1);
        proof {
            assert(after.drop_last() =~= before);
            assert(after.last() == c);
            if i > 0 {
                assert(after[after.len() - 2] == line@[i - 1]);
            }
        }
        if is_white_space(c) {
            in_word = false;
        } else if in_word {
            let mut last = w.pop().unwrap();
            last.push(c);
            w.push(last);
            proof {
                assert(texts(w@) =~= words(after));
            }
        } else {
            let mut fresh: Vec<char> = Vec::new();
            fresh.push(c);
            w.push(fresh);
            in_word = true;
            proof {
                assert(texts(w@) =~= words(after));
            }
        }
        i = i + 1;
    }
    proof {
        assert(line@.take(n as int) =~= line@);
    }
    w
}

/// Whether `c` is an ASCII decimal digit.
pub open spec fn is_digit(c: char) -> bool {
    '0' <= c <= '9'
}

/// The value of the ASCII decimal digit `c`.
pub open spec fn digit_value(c: char) -> nat {
    (c as u32 - '0' as u32) as nat
}

/// The value of the decimal numeral `s`, most significant digit first.
pub open spec fn numeral_value(s: Seq<char>) -> nat
    decreases s.len(),
{
    if s.len() == 0 {
        0
    } else {
        numeral_value(s.drop_last()) * 10 + digit_value(s.last())
    }
}

/// The digits of an unsigned numeral: `s` without one leading `+`.
pub open spec fn unsigned_digits(s: Seq<char>) -> Seq<char> {
    if s.len() > 0 && s[0] == '+' {
        s.drop_first()
    } else {
        s
    }
}

/// The machine word that the text `s` denotes as an unsigned decimal
/// numeral: an optional `+` and at least one ASCII digit, of a value that
/// fits in a `usize`; `None` for any other text.
pub open spec fn numeral(s: Seq<char>) -> Option<usize> {
    let d = unsigned_digits(s);
    if d.len() > 0 && (forall|i: int| 0 <= i < d.len() ==> is_digit(#[trigger] d[i])) && numeral_value(d)
        <= usize::MAX {
        Some(numeral_value(d) as usize)
    } else {
        None
    }
}

/// The value of a run of digits is at least the value of each of its
/// prefixes.
proof fn lemma_numeral_prefix(s: Seq<char>, i: int)
    requires
        0 <= i <= s.len(),
    ensures
        numeral_value(s.take(i)) <= numeral_value(s),
    decreases s.len(),
{
    if i < s.len() {
        assert(s.drop_last().take(i) =~= s.take(i));
        lemma_numeral_prefix(s.drop_last(), i);
    } else {
        assert(s.take(i) =~= s);
    }
}

/// The number that the word `w` denotes as an unsigned decimal numeral, as
/// [`numeral`] says.
pub fn parse_usize(w: &Vec<char>) -> (r: Option<usize>)
    ensures
        r == numeral(w@),
{
    let n = w.len();
    let start: usize = if n > 0 && w[0] == '+' {
        1
    } else {
        0
    };
    let ghost d = unsigned_digits(w@);
    proof {
        if start == 1 {
            assert(d =~= w@.subrange(1, n as int));
        } else {
            assert(d =~= w@.subrange(0, n as int));
        }
    }
    if start == n {
        return None;
    }
    let mut acc: usize = 0;
    let mut i: usize = start;
    while i < n
        invariant
            start <= i <= n,
            n == w@.len(),
            start < n,
            d == w@.subrange(start as int, n as int),
            d == unsigned_digits(w@),
            forall|j: int| 0 <= j < i - start ==> is_digit(#[trigger] d[j]),
            acc == numeral_value(d.take(i - start)),
        decreases n - i,
    {
        let c = w[i];
        let ghost k = i - start;
        proof {
            assert(d[k] == c);
            assert(d.take(k + 1).drop_last() =~= d.take(k));
        }
        if !('0' <= c && c <= '9') {
            proof {
                assert(!is_digit(d[k]));
            }
            return None;
        }
        let v = (c as u32 - '0' as u32) as usize;
        proof {
            assert(d.take(k + 1).last() == c);
            assert(numeral_value(d.take(k + 1)) == acc * 10 + v);
        }
        let next = match acc.checked_mul(10) {
            Some(t) => t.checked_add(v),
            None => None,
        };
        match next {
            Some(t) => {
                acc = t;
            },
            None => {
                proof {
                    assert(numeral_value(d.take(k + 1)) > usize::MAX);
                    if forall|j: int| 0 <= j < d.len() ==> is_digit(#[trigger] d[j]) {
                        lemma_numeral_prefix(d, k + 1);
                    }
                }
                return None;
            },
        }
        i = i + 1;
    }
    proof {
        assert(d.take(n - start) =~= d);
    }
    Some(acc)
}

/// The ASCII character of the decimal digit `d`.
pub open spec fn digit_char(d: nat) -> char {
    (d + 48) as char
}

/// The decimal numeral of `n`, without leading zeros.
pub open spec fn decimal(n: nat) -> Seq<char>
    decreases n,
{
    if n < 10 {
        seq![digit_char(n)]
    } else {
        decimal(n / 10).push(digit_char(n % 10))
    }
}

/// Appends the decimal numeral of `n` to `out`.
fn push_decimal(out: &mut Vec<char>, n: usize)
    ensures
        final(out)@ == old(out)@ + decimal(n as nat),
    decreases n,
{
    if n >= 10 {
        push_decimal(out, n / 10);
    }
    let d: u8 = (n % 10) as u8;
    let c: char = (48u8 + d) as char;
    proof {
        assert(c == digit_char((n % 10) as nat));
    }
    out.push(c);
    proof {
        if n >= 10 {
            assert(decimal(n as nat) == decimal((n / 10) as nat).push(digit_char((n % 10) as nat)));
        }
    }
}

/// The characters of a decimal numeral are digits, and its value is the
/// number it was written from.
proof fn lemma_decimal_digits(n: nat)
    ensures
        decimal(n).len() > 0,
        forall|i: int| 0 <= i < decimal(n).len() ==> is_digit(#[trigger] decimal(n)[i]),
        numeral_value(decimal(n)) == n,
    decreases n,
{
    let d = (n % 10) as nat;
    assert(digit_value(digit_char(d)) == d);
    if n >= 10 {
        lemma_decimal_digits(n / 10);
        let w = decimal(n / 10);
        assert(decimal(n).drop_last() =~= w);
        assert(decimal(n).last() == digit_char(d));
        assert(numeral_value(decimal(n)) == numeral_value(w) * 10 + digit_value(digit_char(d)));
        assert((n / 10) * 10 + n % 10 == n);
        assert forall|i: int| 0 <= i < decimal(n).len() implies is_digit(#[trigger] decimal(n)[i]) by {
            if i < w.len() {
                assert(decimal(n)[i] == w[i]);
            }
        }
    } else {
        assert(seq![digit_char(n)].drop_last() =~= Seq::<char>::empty());
        assert(numeral_value(Seq::<char>::empty()) == 0);
        assert(d == n);
        assert(decimal(n) == seq![digit_char(n)]);
        assert(numeral_value(decimal(n)) == numeral_value(Seq::<char>::empty()) * 10 + digit_value(digit_char(n)));
    }
}

/// Reading back the decimal numeral of a machine word gives the word:
/// the configuration number that opens a record is the one it was written
/// from.
pub proof fn lemma_decimal_roundtrip(n: usize)
    ensures
        numeral(decimal(n as nat)) == Some(n),
{
    lemma_decimal_digits(n as nat);
    let s = decimal(n as nat);
    assert(is_digit(s[0]));
    assert(unsigned_digits(s) == s);
}

/// Whether `s` begins with `prefix`.
pub open spec fn begins_with(s: Seq<char>, prefix: Seq<char>) -> bool {
    prefix.len() <= s.len() && s.take(prefix.len() as int) == prefix
}

/// Whether the text `line` begins with the characters `prefix`.
fn begins_with_chars(line: &str, prefix: &Vec<char>) -> (b: bool)
    ensures
        b == begins_with(line@, prefix@),
{
    let n = line.unicode_len();
    let m = prefix.len();
    if m > n {
        return false;
    }
    let mut i: usize = 0;
    while i < m
        invariant
            m <= n,
            n == line@.len(),
            m == prefix@.len(),
            i <= m,
            line@.take(i as int) == prefix@.take(i as int),
        decreases m - i,
    {
        let c = line.get_char(i);
        if c != prefix[i] {
            proof {
                assert(line@.take(m as int)[i as int] != prefix@[i as int]);
            }
            return false;
        }
        proof {
            assert(line@.take(i + 1) =~= line@.take(i as int).push(c));
            assert(prefix@.take(i + 1) =~= prefix@.take(i as int).push(prefix@[i as int]));
        }
        i = i + 1;
    }
    proof {
        assert(prefix@.take(m as int) =~= prefix@);
    }
    true
}

/// Whether the text `line` begins with the text `prefix`.
pub fn has_prefix(line: &str, prefix: &str) -> (b: bool)
    ensures
        b == begins_with(line@, prefix@),
{
    let m = prefix.unicode_len();
    let mut p: Vec<char> = Vec::new();
    let mut i: usize = 0;
    while i < m
        invariant
            m == prefix@.len(),
            i <= m,
            p@ == prefix@.take(i as int),
        decreases m - i,
    {
        p.push(prefix.get_char(i));
        proof {
            assert(p@ =~= prefix@.take(i + 1));
        }
        i = i + 1;
    }
    proof {
        assert(prefix@.take(m as int) =~= prefix@);
    }
    begins_with_chars(line, &p)
}

/// The kinds of line of the report that belong to one configuration.
#[derive(Clone, Copy, Debug, PartialEq, Eq, Structural)]
pub enum Record {
    /// `connection config <c> ...`: one connection between two tiles.
    Connection,
    /// `num_of_connections config <c> ... <n>`: how many connections there are.
    ConnectionCount,
    /// `pcu config <c> ...`: one compute tile.
    Pcu,
    /// `pmu config <c> ...`: one memory tile.
    Pmu,
    /// `kernel latency config <c> ... <n>`: the latency of one kernel.
    KernelLatency,
}

/// The words that open a line of kind `r`, up to the configuration number.
pub open spec fn record_tag(r: Record) -> Seq<char> {
    match r {
        Record::Connection => seq![
            'c', 'o', 'n', 'n', 'e', 'c', 't', 'i', 'o', 'n', ' ', 'c', 'o', 'n', 'f', 'i', 'g', ' ',
        ],
        Record::ConnectionCount => seq![
            'n', 'u', 'm', '_', 'o', 'f', '_', 'c', 'o', 'n', 'n', 'e', 'c', 't', 'i', 'o', 'n', 's',
            ' ', 'c', 'o', 'n', 'f', 'i', 'g', ' ',
        ],
        Record::Pcu => seq!['p', 'c', 'u', ' ', 'c', 'o', 'n', 'f', 'i', 'g', ' '],
        Record::Pmu => seq!['p', 'm', 'u', ' ', 'c', 'o', 'n', 'f', 'i', 'g', ' '],
        Record::KernelLatency => seq![
            'k', 'e', 'r', 'n', 'e', 'l', ' ', 'l', 'a', 't', 'e', 'n', 'c', 'y', ' ', 'c', 'o', 'n',
            'f', 'i', 'g', ' ',
        ],
    }
}

/// The text that opens a line of kind `r` of configuration `config`.
pub open spec fn record_prefix(r: Record, config: usize) -> Seq<char> {
    record_tag(r) + decimal(config as nat)
}

/// The words that open a line of kind `r`, up to the configuration number.
fn tag_chars(r: Record) -> (v: Vec<char>)
    ensures
        v@ == record_tag(r),
{
    let v = match r {
        Record::Connection => vec![
            'c', 'o', 'n', 'n', 'e', 'c', 't', 'i', 'o', 'n', ' ', 'c', 'o', 'n', 'f', 'i', 'g', ' ',
        ],
        Record::ConnectionCount => vec![
            'n', 'u', 'm', '_', 'o', 'f', '_', 'c', 'o', 'n', 'n', 'e', 'c', 't', 'i', 'o', 'n', 's',
            ' ', 'c', 'o', 'n', 'f', 'i', 'g', ' ',
        ],
        Record::Pcu => vec!['p', 'c', 'u', ' ', 'c', 'o', 'n', 'f', 'i', 'g', ' '],
        Record::Pmu => vec!['p', 'm', 'u', ' ', 'c', 'o', 'n', 'f', 'i', 'g', ' '],
        Record::KernelLatency => vec![
            'k', 'e', 'r', 'n', 'e', 'l', ' ', 'l', 'a', 't', 'e', 'n', 'c', 'y', ' ', 'c', 'o', 'n',
            'f', 'i', 'g', ' ',
        ],
    };
    proof {
        assert(v@ =~= record_tag(r));
    }
    v
}

/// Whether `line` is a line of kind `r` of configuration `config`: whether
/// it begins with the record's words and the configuration's number.  As
/// with any prefix, the number `1` also opens the lines of configuration
/// `12`.
pub fn opens_record(line: &str, r: Record, config: usize) -> (b: bool)
    ensures
        b == begins_with(line@, record_prefix(r, config)),
{
    let mut p = tag_chars(r);
    push_decimal(&mut p, config);
    begins_with_chars(line, &p)
}

/// Why a line of the report cannot be read.
#[derive(Clone, Copy, Debug, PartialEq, Eq, Structural)]
pub enum ReportError {
    /// The line has no word at this position.
    Missing { index: usize },
    /// The word at this position is no unsigned decimal numeral that fits in
    /// a machine word.
    NotANumber { index: usize },
}

/// The count that word `k` of `ws` holds.
pub open spec fn count_at(ws: Seq<Seq<char>>, k: int) -> Result<usize, ReportError> {
    if k >= ws.len() {
        Err(ReportError::Missing { index: k as usize })
    } else {
        match numeral(ws[k]) {
            Some(v) => Ok(v),
            None => Err(ReportError::NotANumber { index: k as usize }),
        }
    }
}

/// The count that word `k` of `ws` holds, as [`count_at`] says.
fn count_field(ws: &Vec<Vec<char>>, k: usize) -> (r: Result<usize, ReportError>)
    ensures
        r == count_at(texts(ws@), k as int),
{
    if k >= ws.len() {
        return Err(ReportError::Missing { index: k });
    }
    match parse_usize(&ws[k]) {
        Some(v) => Ok(v),
        None => Err(ReportError::NotANumber { index: k }),
    }
}

/// The connection that the words `ws` of a connection line describe: the
/// kind, row and column of its first tile in words 3 to 5 and those of its
/// second tile in words 6 to 8; the first of these words that is missing or
/// no count gives the error.
pub open spec fn connection_record(ws: Seq<Seq<char>>) -> Result<Connection, ReportError> {
    if ws.len() <= 3 {
        Err(ReportError::Missing { index: 3 })
    } else {
        match count_at(ws, 4) {
            Err(e) => Err(e),
            Ok(from_x) => match count_at(ws, 5) {
                Err(e) => Err(e),
                Ok(from_y) => if ws.len() <= 6 {
                    Err(ReportError::Missing { index: 6 })
                } else {
                    match count_at(ws, 7) {
                        Err(e) => Err(e),
                        Ok(to_x) => match count_at(ws, 8) {
                            Err(e) => Err(e),
                            Ok(to_y) => Ok(
                                Connection {
                                    from_kind: tile_kind_named(ws[3]),
                                    from_x,
                                    from_y,
                                    to_kind: tile_kind_named(ws[6]),
                                    to_x,
                                    to_y,
                                },
                            ),
                        },
                    }
                },
            },
        }
    }
}

/// The connection that the words of a connection line describe, as
/// [`connection_record`] says.
pub fn connection_line(ws: &Vec<Vec<char>>) -> (r: Result<Connection, ReportError>)
    ensures
        r == connection_record(texts(ws@)),
{
    if ws.len() <= 3 {
        return Err(ReportError::Missing { index: 3 });
    }
    let from_kind = parse_tile_kind(&ws[3]);
    let from_x = match count_field(ws, 4) {
        Ok(v) => v,
        Err(e) => {
            return Err(e);
        },
    };
    let from_y = match count_field(ws, 5) {
        Ok(v) => v,
        Err(e) => {
            return Err(e);
        },
    };
    if ws.len() <= 6 {
        return Err(ReportError::Missing { index: 6 });
    }
    let to_kind = parse_tile_kind(&ws[6]);
    let to_x = match count_field(ws, 7) {
        Ok(v) => v,
        Err(e) => {
            return Err(e);
        },
    };
    let to_y = match count_field(ws, 8) {
        Ok(v) => v,
        Err(e) => {
            return Err(e);
        },
    };
    Ok(Connection { from_kind, from_x, from_y, to_kind, to_x, to_y })
}

/// The count that the last word of `ws` holds.
pub open spec fn last_count_of(ws: Seq<Seq<char>>) -> Result<usize, ReportError> {
    if ws.len() == 0 {
        Err(ReportError::Missing { index: 0 })
    } else {
        count_at(ws, ws.len() - 1)
    }
}

/// The count that the last word of a line holds, as [`last_count_of`] says:
/// the number of connections, or a kernel's latency.
pub fn last_count(ws: &Vec<Vec<char>>) -> (r: Result<usize, ReportError>)
    ensures
        r == last_count_of(texts(ws@)),
{
    if ws.len() == 0 {
        return Err(ReportError::Missing { index: 0 });
    }
    count_field(ws, ws.len() - 1)
}

/// The last word of a line, if it has words.
pub fn last_word(ws: &Vec<Vec<char>>) -> (r: Option<Vec<char>>)
    ensures
        r matches Some(w) ==> ws@.len() > 0 && w@ == texts(ws@).last(),
        r is None <==> ws@.len() == 0,
{
    if ws.len() == 0 {
        None
    } else {
        Some(ws[ws.len() - 1].clone())
    }
}

/// The word that ends a tile's list of outgoing connections.
pub open spec fn receiver_word() -> Seq<char> {
    seq!['r', 'e', 'c', 'e', 'i', 'v', 'e', 'r']
}

/// Whether the word `w` is `receiver`.
fn is_receiver_word(w: &Vec<char>) -> (b: bool)
    ensures
        b == (w@ == receiver_word()),
{
    let r = vec!['r', 'e', 'c', 'e', 'i', 'v', 'e', 'r'];
    proof {
        assert(r@ =~= receiver_word());
    }
    if w.len() != r.len() {
        return false;
    }
    let mut i: usize = 0;
    while i < r.len()
        invariant
            w@.len() == r@.len(),
            r@ == receiver_word(),
            i <= r@.len(),
            forall|j: int| 0 <= j < i ==> w@[j] == r@[j],
        decreases r@.len() - i,
    {
        if w[i] != r[i] {
            return false;
        }
        i = i + 1;
    }
    proof {
        assert(w@ =~= r@);
    }
    true
}

/// The counts in words `j`, `j + 1`, ... of `ws` up to the word `receiver`,
/// and the position of that word; a word before it that is no count, or no
/// `receiver` word at all, gives the error.
pub open spec fn counts_until_receiver(ws: Seq<Seq<char>>, j: int) -> Result<(Seq<usize>, int), ReportError>
    decreases ws.len() - j,
{
    if j < 0 || j >= ws.len() {
        Err(ReportError::Missing { index: j as usize })
    } else if ws[j] == receiver_word() {
        Ok((seq![], j))
    } else {
        match numeral(ws[j]) {
            None => Err(ReportError::NotANumber { index: j as usize }),
            Some(v) => match counts_until_receiver(ws, j + 1) {
                Err(e) => Err(e),
                Ok((rest, end)) => Ok((seq![v] + rest, end)),
            },
        }
    }
}

/// The counts in words `k`, `k + 1`, ... to the end of `ws`; the first word
/// that is no count gives the error.
pub open spec fn counts_to_end(ws: Seq<Seq<char>>, k: int) -> Result<Seq<usize>, ReportError>
    decreases ws.len() - k,
{
    if k < 0 || k >= ws.len() {
        Ok(seq![])
    } else {
        match numeral(ws[k]) {
            None => Err(ReportError::NotANumber { index: k as usize }),
            Some(v) => match counts_to_end(ws, k + 1) {
                Err(e) => Err(e),
                Ok(rest) => Ok(seq![v] + rest),
            },
        }
    }
}

/// The counts up to the word `receiver`, from word `j` on, and the
/// position of that word, as [`counts_until_receiver`] says.
fn read_until_receiver(ws: &Vec<Vec<char>>, j: usize) -> (r: Result<(Vec<usize>, usize), ReportError>)
    ensures
        match counts_until_receiver(texts(ws@), j as int) {
            Ok((v, end)) => r matches Ok((got, e)) && got@ == v && e == end,
            Err(err) => r == Err::<(Vec<usize>, usize), ReportError>(err),
        },
        r matches Ok((_, e)) ==> e < ws.len(),
{
    let ghost t = texts(ws@);
    let mut acc: Vec<usize> = Vec::new();
    let mut i: usize = j;
    if i >= ws.len() {
        return Err(ReportError::Missing { index: i });
    }
    while i < ws.len()
        invariant
            t == texts(ws@),
            j <= i <= ws@.len(),
            counts_until_receiver(t, j as int) == match counts_until_receiver(t, i as int) {
                Ok((rest, end)) => Ok((acc@ + rest, end)),
                Err(e) => Err(e),
            },
        decreases ws@.len() - i,
    {
        if is_receiver_word(&ws[i]) {
            proof {
                assert(acc@ + seq![] =~= acc@);
            }
            return Ok((acc, i));
        }
        match parse_usize(&ws[i]) {
            None => {
                return Err(ReportError::NotANumber { index: i });
            },
            Some(v) => {
                proof {
                    let inner = counts_until_receiver(t, i + 1);
                    if let Ok((rest, end)) = inner {
                        assert(acc@ + (seq![v] + rest) =~= acc@.push(v) + rest);
                    }
                }
                acc.push(v);
            },
        }
        i = i + 1;
    }
    Err(ReportError::Missing { index: i })
}

/// The counts from word `k` to the end of `ws`, as [`counts_to_end`] says.
fn read_to_end(ws: &Vec<Vec<char>>, k: usize) -> (r: Result<Vec<usize>, ReportError>)
    ensures
        match counts_to_end(texts(ws@), k as int) {
            Ok(v) => r matches Ok(got) && got@ == v,
            Err(err) => r == Err::<Vec<usize>, ReportError>(err),
        },
{
    let ghost t = texts(ws@);
    let mut acc: Vec<usize> = Vec::new();
    let mut i: usize = k;
    if i > ws.len() {
        return Ok(acc);
    }
    while i < ws.len()
        invariant
            t == texts(ws@),
            k <= i <= ws@.len(),
            counts_to_end(t, k as int) == match counts_to_end(t, i as int) {
                Ok(rest) => Ok(acc@ + rest),
                Err(e) => Err(e),
            },
        decreases ws@.len() - i,
    {
        match parse_usize(&ws[i]) {
            None => {
                return Err(ReportError::NotANumber { index: i });
            },
            Some(v) => {
                proof {
                    let inner = counts_to_end(t, i + 1);
                    if let Ok(rest) = inner {
                        assert(acc@ + (seq![v] + rest) =~= acc@.push(v) + rest);
                    }
                }
                acc.push(v);
            },
        }
        i = i + 1;
    }
    proof {
        assert(acc@ + seq![] =~= acc@);
    }
    Ok(acc)
}

/// The kind of datapath a compute tile is configured as.
#[derive(Clone, Copy, Debug, PartialEq, Eq, Structural)]
pub enum UnitKind {
    /// `SIMD`: lanes of vector units.
    Simd,
    /// `Systolic`: a systolic array.
    Systolic,
    /// Any other name.
    Other,
}

/// The datapath kind that a word names.
pub open spec fn unit_kind_named(w: Seq<char>) -> UnitKind {
    if w == seq!['S', 'I', 'M', 'D'] {
        UnitKind::Simd
    } else if w == seq!['S', 'y', 's', 't', 'o', 'l', 'i', 'c'] {
        UnitKind::Systolic
    } else {
        UnitKind::Other
    }
}

/// The datapath kind that a word names, as [`unit_kind_named`] says.
pub fn parse_unit_kind(w: &Vec<char>) -> (k: UnitKind)
    ensures
        k == unit_kind_named(w@),
{
    let simd = vec!['S', 'I', 'M', 'D'];
    let systolic = vec!['S', 'y', 's', 't', 'o', 'l', 'i', 'c'];
    proof {
        assert(simd@ =~= seq!['S', 'I', 'M', 'D']);
        assert(systolic@ =~= seq!['S', 'y', 's', 't', 'o', 'l', 'i', 'c']);
    }
    if same_word(w, &simd) {
        UnitKind::Simd
    } else if same_word(w, &systolic) {
        UnitKind::Systolic
    } else {
        UnitKind::Other
    }
}

/// Whether two words are equal.
fn same_word(a: &Vec<char>, b: &Vec<char>) -> (r: bool)
    ensures
        r == (a@ == b@),
{
    if a.len() != b.len() {
        return false;
    }
    let mut i: usize = 0;
    while i < a.len()
        invariant
            a@.len() == b@.len(),
            i <= a@.len(),
            forall|j: int| 0 <= j < i ==> a@[j] == b@[j],
        decreases a@.len() - i,
    {
        if a[i] != b[i] {
            return false;
        }
        i = i + 1;
    }
    proof {
        assert(a@ =~= b@);
    }
    true
}

/// What a compute tile line says.
pub struct PcuRecord {
    pub x: usize,
    pub y: usize,
    pub counter: usize,
    pub kind: UnitKind,
    pub m: usize,
    pub k: usize,
    pub n: usize,
    pub senders: Seq<usize>,
    pub receivers: Seq<usize>,
}

/// A compute tile line, read: the tile's row and column, its iteration
/// count, its datapath kind and matrix sizes, and the connections that it
/// sends on and receives from.
#[derive(Debug, PartialEq, Eq)]
pub struct PcuLine {
    pub x: usize,
    pub y: usize,
    pub counter: usize,
    pub kind: UnitKind,
    pub m: usize,
    pub k: usize,
    pub n: usize,
    pub senders: Vec<usize>,
    pub receivers: Vec<usize>,
}

impl View for PcuLine {
    type V = PcuRecord;

    open spec fn view(&self) -> PcuRecord {
        PcuRecord {
            x: self.x,
            y: self.y,
            counter: self.counter,
            kind: self.kind,
            m: self.m,
            k: self.k,
            n: self.n,
            senders: self.senders@,
            receivers: self.receivers@,
        }
    }
}

/// What the words `ws` of a compute tile line say: row, column and
/// iteration count in words 4 to 6, the datapath kind in word 7, the
/// matrix sizes in words 8 to 10, the outgoing connections from word 12 up
/// to the word `receiver` and the incoming ones after it; the first word
/// that is missing or no count gives the error.
pub open spec fn pcu_record(ws: Seq<Seq<char>>) -> Result<PcuRecord, ReportError> {
    match count_at(ws, 4) {
        Err(e) => Err(e),
        Ok(x) => match count_at(ws, 5) {
            Err(e) => Err(e),
            Ok(y) => match count_at(ws, 6) {
                Err(e) => Err(e),
                Ok(counter) => if ws.len() <= 7 {
                    Err(ReportError::Missing { index: 7 })
                } else {
                    match count_at(ws, 8) {
                        Err(e) => Err(e),
                        Ok(m) => match count_at(ws, 9) {
                            Err(e) => Err(e),
                            Ok(k) => match count_at(ws, 10) {
                                Err(e) => Err(e),
                                Ok(n) => match counts_until_receiver(ws, 12) {
                                    Err(e) => Err(e),
                                    Ok((senders, end)) => match counts_to_end(ws, end + 1) {
                                        Err(e) => Err(e),
                                        Ok(receivers) => Ok(
                                            PcuRecord {
                                                x,
                                                y,
                                                counter,
                                                kind: unit_kind_named(ws[7]),
                                                m,
                                                k,
                                                n,
                                                senders,
                                                receivers,
                                            },
                                        ),
                                    },
                                },
                            },
                        },
                    }
                },
            },
        },
    }
}

/// A compute tile line, read from its words as [`pcu_record`] says.
pub fn pcu_line(ws: &Vec<Vec<char>>) -> (r: Result<PcuLine, ReportError>)
    ensures
        match pcu_record(texts(ws@)) {
            Ok(rec) => r matches Ok(p) && p@ == rec,
            Err(e) => r matches Err(f) && f == e,
        },
{
    let x = match count_field(ws, 4) {
        Ok(v) => v,
        Err(e) => {
            return Err(e);
        },
    };
    let y = match count_field(ws, 5) {
        Ok(v) => v,
        Err(e) => {
            return Err(e);
        },
    };
    let counter = match count_field(ws, 6) {
        Ok(v) => v,
        Err(e) => {
            return Err(e);
        },
    };
    if ws.len() <= 7 {
        return Err(ReportError::Missing { index: 7 });
    }
    let kind = parse_unit_kind(&ws[7]);
    let m = match count_field(ws, 8) {
        Ok(v) => v,
        Err(e) => {
            return Err(e);
        },
    };
    let k = match count_field(ws, 9) {
        Ok(v) => v,
        Err(e) => {
            return Err(e);
        },
    };
    let n = match count_field(ws, 10) {
        Ok(v) => v,
        Err(e) => {
            return Err(e);
        },
    };
    let (senders, end) = match read_until_receiver(ws, 12) {
        Ok(p) => p,
        Err(e) => {
            return Err(e);
        },
    };
    let receivers = match read_to_end(ws, end + 1) {
        Ok(v) => v,
        Err(e) => {
            return Err(e);
        },
    };
    Ok(PcuLine { x, y, counter, kind, m, k, n, senders, receivers })
}

/// What a memory tile line says.
pub struct PmuRecord {
    pub x: usize,
    pub y: usize,
    pub counter: usize,
    pub senders: Seq<usize>,
    pub receivers: Seq<usize>,
}

/// A memory tile line, read: the tile's row and column, its iteration
/// count, and the connections that it sends on and receives from.
#[derive(Debug, PartialEq, Eq)]
pub struct PmuLine {
    pub x: usize,
    pub y: usize,
    pub counter: usize,
    pub senders: Vec<usize>,
    pub receivers: Vec<usize>,
}

impl View for PmuLine {
    type V = PmuRecord;

    open spec fn view(&self) -> PmuRecord {
        PmuRecord {
            x: self.x,
            y: self.y,
            counter: self.counter,
            senders: self.senders@,
            receivers: self.receivers@,
        }
    }
}

/// What the words `ws` of a memory tile line say: row, column and
/// iteration count in words 4 to 6, the outgoing connections from word 8 up
/// to the word `receiver` and the incoming ones after it; the first word
/// that is missing or no count gives the error.
pub open spec fn pmu_record(ws: Seq<Seq<char>>) -> Result<PmuRecord, ReportError> {
    match count_at(ws, 4) {
        Err(e) => Err(e),
        Ok(x) => match count_at(ws, 5) {
            Err(e) => Err(e),
            Ok(y) => match count_at(ws, 6) {
                Err(e) => Err(e),
                Ok(counter) => match counts_until_receiver(ws, 8) {
                    Err(e) => Err(e),
                    Ok((senders, end)) => match counts_to_end(ws, end + 1) {
                        Err(e) => Err(e),
                        Ok(receivers) => Ok(PmuRecord { x, y, counter, senders, receivers }),
                    },
                },
            },
        },
    }
}

/// A memory tile line, read from its words as [`pmu_record`] says.
pub fn pmu_line(ws: &Vec<Vec<char>>) -> (r: Result<PmuLine, ReportError>)
    ensures
        match pmu_record(texts(ws@)) {
            Ok(rec) => r matches Ok(p) && p@ == rec,
            Err(e) => r matches Err(f) && f == e,
        },
{
    let x = match count_field(ws, 4) {
        Ok(v) => v,
        Err(e) => {
            return Err(e);
        },
    };
    let y = match count_field(ws, 5) {
        Ok(v) => v,
        Err(e) => {
            return Err(e);
        },
    };
    let counter = match count_field(ws, 6) {
        Ok(v) => v,
        Err(e) => {
            return Err(e);
        },
    };
    let (senders, end) = match read_until_receiver(ws, 8) {
        Ok(p) => p,
        Err(e) => {
            return Err(e);
        },
    };
    let receivers = match read_to_end(ws, end + 1) {
        Ok(v) => v,
        Err(e) => {
            return Err(e);
        },
    };
    Ok(PmuLine { x, y, counter, senders, receivers })
}

/// The pieces of `s` between the underscores, in order: one more piece than
/// there are underscores, and empty pieces where underscores meet.
pub open spec fn underscore_pieces(s: Seq<char>) -> Seq<Seq<char>>
    decreases s.len(),
{
    if s.len() == 0 {
        seq![seq![]]
    } else {
        let p = underscore_pieces(s.drop_last());
        if s.last() == '_' {
            p.push(seq![])
        } else {
            p.update(p.len() - 1, p.last().push(s.last()))
        }
    }
}

/// The pieces of `text` between the underscores, as [`underscore_pieces`]
/// says.
pub fn split_underscores(text: &str) -> (p: Vec<Vec<char>>)
    ensures
        texts(p@) == underscore_pieces(text@),
        p@.len() > 0,
{
    let n = text.unicode_len();
    let mut p: Vec<Vec<char>> = Vec::new();
    p.push(Vec::new());
    let mut i: usize = 0;
    proof {
        assert(text@.take(0) =~= Seq::<char>::empty());
        assert(texts(p@) =~= underscore_pieces(text@.take(0)));
    }
    while i < n
        invariant
            n == text@.len(),
            i <= n,
            p@.len() > 0,
            texts(p@) == underscore_pieces(text@.take(i as int)),
        decreases n - i,
    {
        let c = text.get_char(i);
        let ghost after = text@.take(i + 1);
        proof {
            assert(after.drop_last() =~= text@.take(i as int));
            assert(after.last() == c);
        }
        if c == '_' {
            p.push(Vec::new());
            proof {
                assert(texts(p@) =~= underscore_pieces(after));
            }
        } else {
            let mut last = p.pop().unwrap();
            last.push(c);
            p.push(last);
            proof {
                assert(texts(p@) =~= underscore_pieces(after));
            }
        }
        i = i + 1;
    }
    proof {
        assert(text@.take(n as int) =~= text@);
    }
    p
}

/// The experiment number and the number of inputs that a run name such as
/// `2_100` gives: the counts before the first underscore and between it and
/// the next one (or the end).  A first piece that is no count gives
/// `NotANumber { index: 0 }`, a missing second piece `Missing { index: 1 }`.
pub open spec fn run_numbers(s: Seq<char>) -> Result<(usize, usize), ReportError> {
    let p = underscore_pieces(s);
    match numeral(p[0]) {
        None => Err(ReportError::NotANumber { index: 0 }),
        Some(experiment) => if p.len() < 2 {
            Err(ReportError::Missing { index: 1 })
        } else {
            match numeral(p[1]) {
                None => Err(ReportError::NotANumber { index: 1 }),
                Some(inputs) => Ok((experiment, inputs)),
            }
        },
    }
}

/// The experiment number and the number of inputs that a run name gives,
/// as [`run_numbers`] says.
pub fn parse_run_name(name: &str) -> (r: Result<(usize, usize), ReportError>)
    ensures
        r == run_numbers(name@),
{
    let p = split_underscores(name);
    proof {
        assert(texts(p@)[0] == p@[0]@);
    }
    let experiment = match parse_usize(&p[0]) {
        Some(v) => v,
        None => {
            return Err(ReportError::NotANumber { index: 0 });
        },
    };
    if p.len() < 2 {
        return Err(ReportError::Missing { index: 1 });
    }
    proof {
        assert(texts(p@)[1] == p@[1]@);
    }
    match parse_usize(&p[1]) {
        Some(inputs) => Ok((experiment, inputs)),
        None => Err(ReportError::NotANumber { index: 1 }),
    }
}

/// The texts of the lines of a report.
pub open spec fn line_texts(ls: Seq<&str>) -> Seq<Seq<char>> {
    Seq::new(ls.len(), |i: int| ls[i]@)
}

/// The connections that the lines `ls` give for configuration `c`, in
/// order; the first connection line that cannot be read gives the error.
pub open spec fn config_connections(ls: Seq<Seq<char>>, c: usize) -> Result<Seq<Connection>, ReportError>
    decreases ls.len(),
{
    if ls.len() == 0 {
        Ok(seq![])
    } else if begins_with(ls[0], record_prefix(Record::Connection, c)) {
        match connection_record(words(ls[0])) {
            Err(e) => Err(e),
            Ok(x) => match config_connections(ls.drop_first(), c) {
                Err(e) => Err(e),
                Ok(v) => Ok(seq![x] + v),
            },
        }
    } else {
        config_connections(ls.drop_first(), c)
    }
}

/// The connections that the lines of a report give for configuration `c`,
/// as [`config_connections`] says.
fn read_connections(lines: &Vec<&str>, c: usize) -> (r: Result<Vec<Connection>, ReportError>)
    ensures
        match config_connections(line_texts(lines@), c) {
            Ok(v) => r matches Ok(got) && got@ == v,
            Err(e) => r == Err::<Vec<Connection>, ReportError>(e),
        },
{
    let ghost ls = line_texts(lines@);
    let mut acc: Vec<Connection> = Vec::new();
    let mut i: usize = 0;
    proof {
        assert(ls.skip(0) =~= ls);
        if let Ok(v) = config_connections(ls, c) {
            assert(acc@ + v =~= v);
        }
    }
    while i < lines.len()
        invariant
            ls == line_texts(lines@),
            i <= lines@.len(),
            config_connections(ls, c) == match config_connections(ls.skip(i as int), c) {
                Ok(v) => Ok(acc@ + v),
                Err(e) => Err(e),
            },
        decreases lines@.len() - i,
    {
        let line = lines[i];
        proof {
            assert(ls.skip(i as int)[0] == line@);
            assert(ls.skip(i as int).drop_first() =~= ls.skip(i + 1));
        }
        if opens_record(line, Record::Connection, c) {
            match connection_line(&split_words(line)) {
                Ok(x) => {
                    proof {
                        if let Ok(v) = config_connections(ls.skip(i + 1), c) {
                            assert(acc@ + (seq![x] + v) =~= acc@.push(x) + v);
                        }
                    }
                    acc.push(x);
                },
                Err(e) => {
                    return Err(e);
                },
            }
        }
        i = i + 1;
    }
    proof {
        assert(ls.skip(i as int) =~= Seq::<Seq<char>>::empty());
        assert(acc@ + seq![] =~= acc@);
    }
    Ok(acc)
}

/// The records that a list of compute tile lines holds.
pub open spec fn pcu_records(v: Seq<PcuLine>) -> Seq<PcuRecord> {
    Seq::new(v.len(), |i: int| v[i]@)
}

/// The records that a list of memory tile lines holds.
pub open spec fn pmu_records(v: Seq<PmuLine>) -> Seq<PmuRecord> {
    Seq::new(v.len(), |i: int| v[i]@)
}

/// The same numbers.
pub open spec fn numbers(v: Seq<usize>) -> Seq<usize> {
    v
}

/// The compute tiles that the lines `ls` give for configuration `c`, in order;
/// the first such line that cannot be read gives the error.
pub open spec fn config_pcus(ls: Seq<Seq<char>>, c: usize) -> Result<Seq<PcuRecord>, ReportError>
    decreases ls.len(),
{
    if ls.len() == 0 {
        Ok(seq![])
    } else if begins_with(ls[0], record_prefix(Record::Pcu, c)) {
        match pcu_record(words(ls[0])) {
            Err(e) => Err(e),
            Ok(x) => match config_pcus(ls.drop_first(), c) {
                Err(e) => Err(e),
                Ok(v) => Ok(seq![x] + v),
            },
        }
    } else {
        config_pcus(ls.drop_first(), c)
    }
}

/// The compute tiles that the lines of a report give for configuration `c`, as
/// [`config_pcus`] says.
fn read_pcus(lines: &Vec<&str>, c: usize) -> (r: Result<Vec<PcuLine>, ReportError>)
    ensures
        match config_pcus(line_texts(lines@), c) {
            Ok(v) => r matches Ok(got) && pcu_records(got@) == v,
            Err(e) => r matches Err(f) && f == e,
        },
{
    let ghost ls = line_texts(lines@);
    let mut acc: Vec<PcuLine> = Vec::new();
    let mut i: usize = 0;
    proof {
        assert(ls.skip(0) =~= ls);
        if let Ok(v) = config_pcus(ls, c) {
            assert(pcu_records(acc@) + v =~= v);
        }
    }
    while i < lines.len()
        invariant
            ls == line_texts(lines@),
            i <= lines@.len(),
            config_pcus(ls, c) == match config_pcus(ls.skip(i as int), c) {
                Ok(v) => Ok(pcu_records(acc@) + v),
                Err(e) => Err(e),
            },
        decreases lines@.len() - i,
    {
        let line = lines[i];
        proof {
            assert(ls.skip(i as int)[0] == line@);
            assert(ls.skip(i as int).drop_first() =~= ls.skip(i + 1));
        }
        if opens_record(line, Record::Pcu, c) {
            match pcu_line(&split_words(line)) {
                Ok(x) => {
                    let ghost before = acc@;
                    let ghost xv = x@;
                    acc.push(x);
                    proof {
                        assert(pcu_records(acc@) =~= pcu_records(before).push(xv));
                        if let Ok(v) = config_pcus(ls.skip(i + 1), c) {
                            assert(pcu_records(before) + (seq![xv] + v) =~= pcu_records(before).push(xv) + v);
                        }
                    }
                },
                Err(e) => {
                    return Err(e);
                },
            }
        }
        i = i + 1;
    }
    proof {
        assert(ls.skip(i as int) =~= Seq::<Seq<char>>::empty());
        assert(pcu_records(acc@) + seq![] =~= pcu_records(acc@));
    }
    Ok(acc)
}

/// The memory tiles that the lines `ls` give for configuration `c`, in order;
/// the first such line that cannot be read gives the error.
pub open spec fn config_pmus(ls: Seq<Seq<char>>, c: usize) -> Result<Seq<PmuRecord>, ReportError>
    decreases ls.len(),
{
    if ls.len() == 0 {
        Ok(seq![])
    } else if begins_with(ls[0], record_prefix(Record::Pmu, c)) {
        match pmu_record(words(ls[0])) {
            Err(e) => Err(e),
            Ok(x) => match config_pmus(ls.drop_first(), c) {
                Err(e) => Err(e),
                Ok(v) => Ok(seq![x] + v),
            },
        }
    } else {
        config_pmus(ls.drop_first(), c)
    }
}

/// The memory tiles that the lines of a report give for configuration `c`, as
/// [`config_pmus`] says.
fn read_pmus(lines: &Vec<&str>, c: usize) -> (r: Result<Vec<PmuLine>, ReportError>)
    ensures
        match config_pmus(line_texts(lines@), c) {
            Ok(v) => r matches Ok(got) && pmu_records(got@) == v,
            Err(e) => r matches Err(f) && f == e,
        },
{
    let ghost ls = line_texts(lines@);
    let mut acc: Vec<PmuLine> = Vec::new();
    let mut i: usize = 0;
    proof {
        assert(ls.skip(0) =~= ls);
        if let Ok(v) = config_pmus(ls, c) {
            assert(pmu_records(acc@) + v =~= v);
        }
    }
    while i < lines.len()
        invariant
            ls == line_texts(lines@),
            i <= lines@.len(),
            config_pmus(ls, c) == match config_pmus(ls.skip(i as int), c) {
                Ok(v) => Ok(pmu_records(acc@) + v),
                Err(e) => Err(e),
            },
        decreases lines@.len() - i,
    {
        let line = lines[i];
        proof {
            assert(ls.skip(i as int)[0] == line@);
            assert(ls.skip(i as int).drop_first() =~= ls.skip(i + 1));
        }
        if opens_record(line, Record::Pmu, c) {
            match pmu_line(&split_words(line)) {
                Ok(x) => {
                    let ghost before = acc@;
                    let ghost xv = x@;
                    acc.push(x);
                    proof {
                        assert(pmu_records(acc@) =~= pmu_records(before).push(xv));
                        if let Ok(v) = config_pmus(ls.skip(i + 1), c) {
                            assert(pmu_records(before) + (seq![xv] + v) =~= pmu_records(before).push(xv) + v);
                        }
                    }
                },
                Err(e) => {
                    return Err(e);
                },
            }
        }
        i = i + 1;
    }
    proof {
        assert(ls.skip(i as int) =~= Seq::<Seq<char>>::empty());
        assert(pmu_records(acc@) + seq![] =~= pmu_records(acc@));
    }
    Ok(acc)
}

/// The kernel latencies that the lines `ls` give for configuration `c`, in order;
/// the first such line that cannot be read gives the error.
pub open spec fn config_kernel_latencies(ls: Seq<Seq<char>>, c: usize) -> Result<Seq<usize>, ReportError>
    decreases ls.len(),
{
    if ls.len() == 0 {
        Ok(seq![])
    } else if begins_with(ls[0], record_prefix(Record::KernelLatency, c)) {
        match last_count_of(words(ls[0])) {
            Err(e) => Err(e),
            Ok(x) => match config_kernel_latencies(ls.drop_first(), c) {
                Err(e) => Err(e),
                Ok(v) => Ok(seq![x] + v),
            },
        }
    } else {
        config_kernel_latencies(ls.drop_first(), c)
    }
}

/// The kernel latencies that the lines of a report give for configuration `c`, as
/// [`config_kernel_latencies`] says.
fn read_kernel_latencies(lines: &Vec<&str>, c: usize) -> (r: Result<Vec<usize>, ReportError>)
    ensures
        match config_kernel_latencies(line_texts(lines@), c) {
            Ok(v) => r matches Ok(got) && numbers(got@) == v,
            Err(e) => r matches Err(f) && f == e,
        },
{
    let ghost ls = line_texts(lines@);
    let mut acc: Vec<usize> = Vec::new();
    let mut i: usize = 0;
    proof {
        assert(ls.skip(0) =~= ls);
        if let Ok(v) = config_kernel_latencies(ls, c) {
            assert(numbers(acc@) + v =~= v);
        }
    }
    while i < lines.len()
        invariant
            ls == line_texts(lines@),
            i <= lines@.len(),
            config_kernel_latencies(ls, c) == match config_kernel_latencies(ls.skip(i as int), c) {
                Ok(v) => Ok(numbers(acc@) + v),
                Err(e) => Err(e),
            },
        decreases lines@.len() - i,
    {
        let line = lines[i];
        proof {
            assert(ls.skip(i as int)[0] == line@);
            assert(ls.skip(i as int).drop_first() =~= ls.skip(i + 1));
        }
        if opens_record(line, Record::KernelLatency, c) {
            match last_count(&split_words(line)) {
                Ok(x) => {
                    let ghost before = acc@;
                    let ghost xv = x;
                    acc.push(x);
                    proof {
                        assert(numbers(acc@) =~= numbers(before).push(xv));
                        if let Ok(v) = config_kernel_latencies(ls.skip(i + 1), c) {
                            assert(numbers(before) + (seq![xv] + v) =~= numbers(before).push(xv) + v);
                        }
                    }
                },
                Err(e) => {
                    return Err(e);
                },
            }
        }
        i = i + 1;
    }
    proof {
        assert(ls.skip(i as int) =~= Seq::<Seq<char>>::empty());
        assert(numbers(acc@) + seq![] =~= numbers(acc@));
    }
    Ok(acc)
}

/// The number of connections that the lines `ls` give for configuration
/// `c`: that of the last such line, `None` when there is none; the first
/// such line that cannot be read gives the error.
pub open spec fn config_count(ls: Seq<Seq<char>>, c: usize) -> Result<Option<usize>, ReportError>
    decreases ls.len(),
{
    if ls.len() == 0 {
        Ok(None)
    } else if begins_with(ls[0], record_prefix(Record::ConnectionCount, c)) {
        match last_count_of(words(ls[0])) {
            Err(e) => Err(e),
            Ok(n) => match config_count(ls.drop_first(), c) {
                Err(e) => Err(e),
                Ok(Some(m)) => Ok(Some(m)),
                Ok(None) => Ok(Some(n)),
            },
        }
    } else {
        config_count(ls.drop_first(), c)
    }
}

/// The number of connections that the lines of a report give for
/// configuration `c`, as [`config_count`] says.
fn read_count(lines: &Vec<&str>, c: usize) -> (r: Result<Option<usize>, ReportError>)
    ensures
        r == config_count(line_texts(lines@), c),
{
    let ghost ls = line_texts(lines@);
    let mut acc: Option<usize> = None;
    let mut i: usize = 0;
    proof {
        assert(ls.skip(0) =~= ls);
    }
    while i < lines.len()
        invariant
            ls == line_texts(lines@),
            i <= lines@.len(),
            config_count(ls, c) == match config_count(ls.skip(i as int), c) {
                Err(e) => Err(e),
                Ok(Some(m)) => Ok(Some(m)),
                Ok(None) => Ok(acc),
            },
        decreases lines@.len() - i,
    {
        let line = lines[i];
        proof {
            assert(ls.skip(i as int)[0] == line@);
            assert(ls.skip(i as int).drop_first() =~= ls.skip(i + 1));
        }
        if opens_record(line, Record::ConnectionCount, c) {
            match last_count(&split_words(line)) {
                Ok(n) => {
                    acc = Some(n);
                },
                Err(e) => {
                    return Err(e);
                },
            }
        }
        i = i + 1;
    }
    proof {
        assert(ls.skip(i as int) =~= Seq::<Seq<char>>::empty());
    }
    Ok(acc)
}

/// What the report says of one configuration.
pub struct ConfigRecord {
    pub connections: Seq<Connection>,
    pub num_of_connections: usize,
    pub pcus: Seq<PcuRecord>,
    pub pmus: Seq<PmuRecord>,
    pub kernel_latency: Seq<usize>,
}

/// What the report says of one configuration: its connections, the number
/// of connections, its compute and memory tiles and its kernel latencies.
#[derive(Debug)]
pub struct Config {
    pub connections: Vec<Connection>,
    pub num_of_connections: usize,
    pub pcus: Vec<PcuLine>,
    pub pmus: Vec<PmuLine>,
    pub kernel_latency: Vec<usize>,
}

impl View for Config {
    type V = ConfigRecord;

    open spec fn view(&self) -> ConfigRecord {
        ConfigRecord {
            connections: self.connections@,
            num_of_connections: self.num_of_connections,
            pcus: pcu_records(self.pcus@),
            pmus: pmu_records(self.pmus@),
            kernel_latency: self.kernel_latency@,
        }
    }
}

/// What the lines `ls` of a report say of configuration `c`: the lines of
/// each kind are read in turn (connections, the number of connections
/// (0 without such a line), compute tiles, memory tiles, kernel
/// latencies), and the first line that cannot be read gives the error.
pub open spec fn config_record(ls: Seq<Seq<char>>, c: usize) -> Result<ConfigRecord, ReportError> {
    match config_connections(ls, c) {
        Err(e) => Err(e),
        Ok(connections) => match config_count(ls, c) {
            Err(e) => Err(e),
            Ok(count) => match config_pcus(ls, c) {
                Err(e) => Err(e),
                Ok(pcus) => match config_pmus(ls, c) {
                    Err(e) => Err(e),
                    Ok(pmus) => match config_kernel_latencies(ls, c) {
                        Err(e) => Err(e),
                        Ok(kernel_latency) => Ok(
                            ConfigRecord {
                                connections,
                                num_of_connections: match count {
                                    Some(n) => n,
                                    None => 0,
                                },
                                pcus,
                                pmus,
                                kernel_latency,
                            },
                        ),
                    },
                },
            },
        },
    }
}

/// What the lines of a report say of configuration `c`, as
/// [`config_record`] says.
pub fn read_config(lines: &Vec<&str>, c: usize) -> (r: Result<Config, ReportError>)
    ensures
        match config_record(line_texts(lines@), c) {
            Ok(rec) => r matches Ok(got) && got@ == rec,
            Err(e) => r matches Err(f) && f == e,
        },
{
    let connections = match read_connections(lines, c) {
        Ok(v) => v,
        Err(e) => {
            return Err(e);
        },
    };
    let num_of_connections = match read_count(lines, c) {
        Ok(Some(n)) => n,
        Ok(None) => 0,
        Err(e) => {
            return Err(e);
        },
    };
    let pcus = match read_pcus(lines, c) {
        Ok(v) => v,
        Err(e) => {
            return Err(e);
        },
    };
    let pmus = match read_pmus(lines, c) {
        Ok(v) => v,
        Err(e) => {
            return Err(e);
        },
    };
    let kernel_latency = match read_kernel_latencies(lines, c) {
        Ok(v) => v,
        Err(e) => {
            return Err(e);
        },
    };
    Ok(Config { connections, num_of_connections, pcus, pmus, kernel_latency })
}

/// The connections come in the order of their lines: a line added at the end
/// adds its record at the end (or gives its error when the lines before
/// are fine).
pub proof fn lemma_connections_in_line_order(ls: Seq<Seq<char>>, l: Seq<char>, c: usize)
    ensures
        config_connections(ls.push(l), c) == match config_connections(ls, c) {
            Err(e) => Err(e),
            Ok(v) => if begins_with(l, record_prefix(Record::Connection, c)) {
                match connection_record(words(l)) {
                    Err(e) => Err(e),
                    Ok(x) => Ok(v.push(x)),
                }
            } else {
                Ok(v)
            },
        },
    decreases ls.len(),
{
    if ls.len() == 0 {
        assert(ls.push(l).drop_first() =~= Seq::<Seq<char>>::empty());
        assert(ls.push(l)[0] == l);
        if let Ok(x) = connection_record(words(l)) {
            assert(seq![x] + Seq::empty() =~= Seq::empty().push(x));
        }
    } else {
        assert(ls.push(l).drop_first() =~= ls.drop_first().push(l));
        assert(ls.push(l)[0] == ls[0]);
        lemma_connections_in_line_order(ls.drop_first(), l, c);
        if let Ok(y) = connection_record(words(ls[0])) {
            if let Ok(v) = config_connections(ls.drop_first(), c) {
                if let Ok(x) = connection_record(words(l)) {
                    assert(seq![y] + v.push(x) =~= (seq![y] + v).push(x));
                }
            }
        }
    }
}

/// The compute tiles come in the order of their lines: a line added at the end
/// adds its record at the end (or gives its error when the lines before
/// are fine).
pub proof fn lemma_pcus_in_line_order(ls: Seq<Seq<char>>, l: Seq<char>, c: usize)
    ensures
        config_pcus(ls.push(l), c) == match config_pcus(ls, c) {
            Err(e) => Err(e),
            Ok(v) => if begins_with(l, record_prefix(Record::Pcu, c)) {
                match pcu_record(words(l)) {
                    Err(e) => Err(e),
                    Ok(x) => Ok(v.push(x)),
                }
            } else {
                Ok(v)
            },
        },
    decreases ls.len(),
{
    if ls.len() == 0 {
        assert(ls.push(l).drop_first() =~= Seq::<Seq<char>>::empty());
        assert(ls.push(l)[0] == l);
        assert(config_pcus(ls, c) == Ok::<Seq<PcuRecord>, ReportError>(Seq::<PcuRecord>::empty()));
        assert(config_pcus(ls.push(l).drop_first(), c) == Ok::<Seq<PcuRecord>, ReportError>(Seq::<PcuRecord>::empty()));
        if let Ok(x) = pcu_record(words(l)) {
            assert(seq![x] + Seq::empty() =~= Seq::empty().push(x));
        }
    } else {
        assert(ls.push(l).drop_first() =~= ls.drop_first().push(l));
        assert(ls.push(l)[0] == ls[0]);
        lemma_pcus_in_line_order(ls.drop_first(), l, c);
        if let Ok(y) = pcu_record(words(ls[0])) {
            if let Ok(v) = config_pcus(ls.drop_first(), c) {
                if let Ok(x) = pcu_record(words(l)) {
                    assert(seq![y] + v.push(x) =~= (seq![y] + v).push(x));
                }
            }
        }
    }
}

/// The memory tiles come in the order of their lines: a line added at the end
/// adds its record at the end (or gives its error when the lines before
/// are fine).
pub proof fn lemma_pmus_in_line_order(ls: Seq<Seq<char>>, l: Seq<char>, c: usize)
    ensures
        config_pmus(ls.push(l), c) == match config_pmus(ls, c) {
            Err(e) => Err(e),
            Ok(v) => if begins_with(l, record_prefix(Record::Pmu, c)) {
                match pmu_record(words(l)) {
                    Err(e) => Err(e),
                    Ok(x) => Ok(v.push(x)),
                }
            } else {
                Ok(v)
            },
        },
    decreases ls.len(),
{
    if ls.len() == 0 {
        assert(ls.push(l).drop_first() =~= Seq::<Seq<char>>::empty());
        assert(ls.push(l)[0] == l);
        if let Ok(x) = pmu_record(words(l)) {
            assert(seq![x] + Seq::empty() =~= Seq::empty().push(x));
        }
    } else {
        assert(ls.push(l).drop_first() =~= ls.drop_first().push(l));
        assert(ls.push(l)[0] == ls[0]);
        lemma_pmus_in_line_order(ls.drop_first(), l, c);
        if let Ok(y) = pmu_record(words(ls[0])) {
            if let Ok(v) = config_pmus(ls.drop_first(), c) {
                if let Ok(x) = pmu_record(words(l)) {
                    assert(seq![y] + v.push(x) =~= (seq![y] + v).push(x));
                }
            }
        }
    }
}

/// The kernel latencies come in the order of their lines: a line added at the end
/// adds its record at the end (or gives its error when the lines before
/// are fine).
pub proof fn lemma_kernel_latencies_in_line_order(ls: Seq<Seq<char>>, l: Seq<char>, c: usize)
    ensures
        config_kernel_latencies(ls.push(l), c) == match config_kernel_latencies(ls, c) {
            Err(e) => Err(e),
            Ok(v) => if begins_with(l, record_prefix(Record::KernelLatency, c)) {
                match last_count_of(words(l)) {
                    Err(e) => Err(e),
                    Ok(x) => Ok(v.push(x)),
                }
            } else {
                Ok(v)
            },
        },
    decreases ls.len(),
{
    if ls.len() == 0 {
        assert(ls.push(l).drop_first() =~= Seq::<Seq<char>>::empty());
        assert(ls.push(l)[0] == l);
        if let Ok(x) = last_count_of(words(l)) {
            assert(seq![x] + Seq::empty() =~= Seq::empty().push(x));
        }
    } else {
        assert(ls.push(l).drop_first() =~= ls.drop_first().push(l));
        assert(ls.push(l)[0] == ls[0]);
        lemma_kernel_latencies_in_line_order(ls.drop_first(), l, c);
        if let Ok(y) = last_count_of(words(ls[0])) {
            if let Ok(v) = config_kernel_latencies(ls.drop_first(), c) {
                if let Ok(x) = last_count_of(words(l)) {
                    assert(seq![y] + v.push(x) =~= (seq![y] + v).push(x));
                }
            }
        }
    }
}

/// The number of connections is that of the last line that gives one: a
/// line added at the end that gives a number overrides the ones before it
/// (or gives its error when the lines before are fine).
pub proof fn lemma_count_last_line_wins(ls: Seq<Seq<char>>, l: Seq<char>, c: usize)
    ensures
        config_count(ls.push(l), c) == match config_count(ls, c) {
            Err(e) => Err(e),
            Ok(o) => if begins_with(l, record_prefix(Record::ConnectionCount, c)) {
                match last_count_of(words(l)) {
                    Err(e) => Err(e),
                    Ok(n) => Ok(Some(n)),
                }
            } else {
                Ok(o)
            },
        },
    decreases ls.len(),
{
    if ls.len() == 0 {
        assert(ls.push(l).drop_first() =~= Seq::<Seq<char>>::empty());
        assert(ls.push(l)[0] == l);
    } else {
        assert(ls.push(l).drop_first() =~= ls.drop_first().push(l));
        assert(ls.push(l)[0] == ls[0]);
        lemma_count_last_line_wins(ls.drop_first(), l, c);
    }
}

} // verus!
