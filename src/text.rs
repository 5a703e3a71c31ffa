use vstd::prelude::*;

verus! {

/// Unicode `White_Space` code points: the separators between tokens of a line.
pub open spec fn is_white(c: char) -> bool {
    ||| c == '\t' || c == '\n' || c == '\u{0B}' || c == '\u{0C}' || c == '\r' || c == ' '
    ||| c == '\u{85}' || c == '\u{A0}' || c == '\u{1680}'
    ||| ('\u{2000}' <= c && c <= '\u{200A}')
    ||| c == '\u{2028}' || c == '\u{2029}' || c == '\u{202F}' || c == '\u{205F}'
    ||| c == '\u{3000}'
}

pub fn white(c: char) -> (r: bool)
    ensures
        r == is_white(c),
{
    c == '\t' || c == '\n' || c == '\u{0B}' || c == '\u{0C}' || c == '\r' || c == ' '
        || c == '\u{85}' || c == '\u{A0}' || c == '\u{1680}' || ('\u{2000}' <= c && c
        <= '\u{200A}') || c == '\u{2028}' || c == '\u{2029}' || c == '\u{202F}' || c
        == '\u{205F}' || c == '\u{3000}'
}

/// The characters of `s`, in order.
pub fn chars_of(s: &str) -> (r: Vec<char>)
    ensures
        r@ == s@,
{
    let mut out: Vec<char> = Vec::new();
    for c in it: s.chars()
        invariant
            out@ == it.seq().take(it.index() as int),
    {
        out.push(c);
    }
    out
}

/// Appends the characters of `s` to `out`.
pub fn push_str(out: &mut Vec<char>, s: &str)
    ensures
        final(out)@ == old(out)@ + s@,
{
    let ghost start = out@;
    for c in it: s.chars()
        invariant
            out@ == start + it.seq().take(it.index() as int),
    {
        out.push(c);
    }
}

/// Relies on `String::push`: appends one character to the string.
#[verifier::external_body]
fn push_char(s: &mut String, c: char)
    ensures
        final(s)@ == old(s)@.push(c),
{
    s.push(c)
}

/// The string made of the characters of `v`.
pub fn string_of(v: &Vec<char>) -> (r: String)
    ensures
        r@ == v@,
{
    let mut s = String::new();
    let mut i: usize = 0;
    while i < v.len()
        invariant
            i <= v.len(),
            s@ == v@.take(i as int),
        decreases v.len() - i,
    {
        push_char(&mut s, v[i]);
        i += 1;
        assert(v@.take(i as int) =~= v@.take(i - 1).push(v@[i - 1]));
    }
    assert(v@.take(v.len() as int) =~= v@);
    s
}

/// The character sequences held by a sequence of vectors.
pub open spec fn views(v: Seq<Vec<char>>) -> Seq<Seq<char>> {
    v.map_values(|x: Vec<char>| x@)
}

/// Drops one carriage return that ends `l`.
pub open spec fn strip_cr(l: Seq<char>) -> Seq<char> {
    if l.len() > 0 && l.last() == '\r' {
        l.drop_last()
    } else {
        l
    }
}

/// The lines completed within `t` (each ended by a line feed, with a carriage return before
/// it dropped), and the unterminated rest.
pub open spec fn line_scan(t: Seq<char>) -> (Seq<Seq<char>>, Seq<char>)
    decreases t.len(),
{
    if t.len() == 0 {
        (seq![], seq![])
    } else {
        let (done, cur) = line_scan(t.drop_last());
        if t.last() == '\n' {
            (done.push(strip_cr(cur)), seq![])
        } else {
            (done, cur.push(t.last()))
        }
    }
}

/// The lines of a text: split at each line feed, a carriage return before the line feed
/// dropped, and no empty line after a final line feed.
pub open spec fn split_lines(t: Seq<char>) -> Seq<Seq<char>> {
    let (done, cur) = line_scan(t);
    if cur.len() == 0 {
        done
    } else {
        done.push(cur)
    }
}

proof fn lemma_line_scan_len(t: Seq<char>)
    ensures
        line_scan(t).0.len() + line_scan(t).1.len() <= t.len(),
    decreases t.len(),
{
    if t.len() > 0 {
        lemma_line_scan_len(t.drop_last());
    }
}

/// A text has no more lines than characters.
pub proof fn lemma_lines_len(t: Seq<char>)
    ensures
        split_lines(t).len() <= t.len(),
{
    lemma_line_scan_len(t);
}

/// The lines of `t`.
pub fn lines_of(t: &Vec<char>) -> (r: Vec<Vec<char>>)
    ensures
        views(r@) == split_lines(t@),
{
    let mut done: Vec<Vec<char>> = Vec::new();
    let mut cur: Vec<char> = Vec::new();
    let mut i: usize = 0;
    while i < t.len()
        invariant
            i <= t.len(),
            (views(done@), cur@) == line_scan(t@.take(i as int)),
        decreases t.len() - i,
    {
        let c = t[i];
        assert(t@.take(i + 1).drop_last() =~= t@.take(i as int));
        if c == '\n' {
            if cur.len() > 0 && cur[cur.len() - 1] == '\r' {
                cur.pop();
            }
            let line = cur;
            let ghost before = done@;
            done.push(line);
            cur = Vec::new();
            proof {
                assert(views(done@) =~= views(before).push(line@));
            }
        } else {
            cur.push(c);
            proof {
                assert(cur@ =~= line_scan(t@.take(i + 1)).1);
            }
        }
        i += 1;
    }
    assert(t@.take(t.len() as int) =~= t@);
    if cur.len() > 0 {
        let ghost before = done@;
        let ghost last = cur@;
        done.push(cur);
        proof {
            assert(views(done@) =~= views(before).push(last));
        }
    }
    assert(forall|k: int| 0 <= k < done.len() ==> views(done@)[k] == done@[k]@);
    done
}

/// The tokens completed within `l` (each ended by white space), and the token under way.
pub open spec fn token_scan(l: Seq<char>) -> (Seq<Seq<char>>, Seq<char>)
    decreases l.len(),
{
    if l.len() == 0 {
        (seq![], seq![])
    } else {
        let (done, cur) = token_scan(l.drop_last());
        if is_white(l.last()) {
            if cur.len() == 0 {
                (done, cur)
            } else {
                (done.push(cur), seq![])
            }
        } else {
            (done, cur.push(l.last()))
        }
    }
}

/// The maximal runs of characters other than white space in `l`, in order.
pub open spec fn tokens(l: Seq<char>) -> Seq<Seq<char>> {
    let (done, cur) = token_scan(l);
    if cur.len() == 0 {
        done
    } else {
        done.push(cur)
    }
}

proof fn lemma_token_scan_nonempty(l: Seq<char>)
    ensures
        forall|i: int| 0 <= i < token_scan(l).0.len() ==> #[trigger] token_scan(l).0[i].len() > 0,
    decreases l.len(),
{
    if l.len() > 0 {
        lemma_token_scan_nonempty(l.drop_last());
        let p = token_scan(l.drop_last());
        assert forall|i: int| 0 <= i < token_scan(l).0.len() implies #[trigger] token_scan(
            l,
        ).0[i].len() > 0 by {
            if i < p.0.len() {
                assert(token_scan(l).0[i] == p.0[i]);
            }
        }
    }
}

/// No token is empty.
pub proof fn lemma_tokens_nonempty(l: Seq<char>)
    ensures
        forall|i: int| 0 <= i < tokens(l).len() ==> #[trigger] tokens(l)[i].len() > 0,
{
    lemma_token_scan_nonempty(l);
}

/// The tokens of `l`.
pub fn tokens_of(l: &Vec<char>) -> (r: Vec<Vec<char>>)
    ensures
        views(r@) == tokens(l@),
        forall|i: int| 0 <= i < r.len() ==> #[trigger] r@[i].len() > 0,
{
    proof {
        lemma_tokens_nonempty(l@);
    }
    let mut done: Vec<Vec<char>> = Vec::new();
    let mut cur: Vec<char> = Vec::new();
    let mut i: usize = 0;
    while i < l.len()
        invariant
            i <= l.len(),
            (views(done@), cur@) == token_scan(l@.take(i as int)),
        decreases l.len() - i,
    {
        let c = l[i];
        assert(l@.take(i + 1).drop_last() =~= l@.take(i as int));
        if white(c) {
            if cur.len() > 0 {
                let tok = cur;
                let ghost before = done@;
                done.push(tok);
                cur = Vec::new();
                proof {
                    assert(views(done@) =~= views(before).push(tok@));
                }
            }
        } else {
            cur.push(c);
            proof {
                assert(cur@ =~= token_scan(l@.take(i + 1)).1);
            }
        }
        i += 1;
    }
    assert(l@.take(l.len() as int) =~= l@);
    assert(forall|k: int| 0 <= k < done.len() ==> views(done@)[k] == done@[k]@);
    if cur.len() > 0 {
        let ghost before = done@;
        let ghost last = cur@;
        done.push(cur);
        proof {
            assert(views(done@) =~= views(before).push(last));
        }
    }
    assert(forall|k: int| 0 <= k < done.len() ==> views(done@)[k] == done@[k]@);
    assert(views(done@) == tokens(l@));
    assert forall|k: int| 0 <= k < done.len() implies #[trigger] done@[k].len() > 0 by {
        assert(views(done@)[k] == done@[k]@);
        assert(tokens(l@)[k].len() > 0);
    }
    done
}

/// Why a decimal integer could not be read.
#[derive(Clone, Copy, Debug, PartialEq, Eq, Structural)]
pub enum IntErrorKind {
    Empty,
    InvalidDigit,
    PosOverflow,
}

pub open spec fn is_digit(c: char) -> bool {
    '0' <= c && c <= '9'
}

pub open spec fn digit_value(c: char) -> nat {
    (c as u32 - '0' as u32) as nat
}

/// The number written by the decimal digits `d`.
pub open spec fn digits_value(d: Seq<char>) -> nat
    decreases d.len(),
{
    if d.len() == 0 {
        0
    } else {
        digits_value(d.drop_last()) * 10 + digit_value(d.last())
    }
}

/// How many decimal digits `d` starts with.
pub open spec fn digit_run(d: Seq<char>) -> nat
    decreases d.len(),
{
    if d.len() == 0 || !is_digit(d[0]) {
        0
    } else {
        1 + digit_run(d.drop_first())
    }
}

/// Reading the digits of an unsigned integer, from the left: a value that outgrows `usize`
/// before the first character that is no digit is reported as an overflow.
pub open spec fn parse_digits(d: Seq<char>) -> Result<usize, IntErrorKind> {
    let k = digit_run(d);
    if d.len() == 0 {
        Err(IntErrorKind::InvalidDigit)
    } else if digits_value(d.take(k as int)) > usize::MAX {
        Err(IntErrorKind::PosOverflow)
    } else if k < d.len() {
        Err(IntErrorKind::InvalidDigit)
    } else {
        Ok(digits_value(d) as usize)
    }
}

/// Reading an unsigned integer: an optional `+`, then decimal digits only.
pub open spec fn parse_usize(s: Seq<char>) -> Result<usize, IntErrorKind> {
    if s.len() == 0 {
        Err(IntErrorKind::Empty)
    } else if s[0] == '+' {
        parse_digits(s.drop_first())
    } else {
        parse_digits(s)
    }
}

proof fn lemma_digit_run(d: Seq<char>, i: int)
    requires
        0 <= i <= digit_run(d),
    ensures
        digit_run(d) <= d.len(),
        i < digit_run(d) ==> is_digit(d[i]),
        i == digit_run(d) && i < d.len() ==> !is_digit(d[i]),
    decreases d.len(),
{
    if d.len() > 0 && is_digit(d[0]) {
        if i > 0 {
            lemma_digit_run(d.drop_first(), i - 1);
        } else {
            lemma_digit_run(d.drop_first(), 0);
        }
    }
}

proof fn lemma_digits_monotonic(d: Seq<char>, i: int, j: int)
    requires
        0 <= i <= j <= d.len(),
        forall|k: int| 0 <= k < j ==> is_digit(#[trigger] d[k]),
    ensures
        digits_value(d.take(i)) <= digits_value(d.take(j)),
    decreases j - i,
{
    if i < j {
        lemma_digits_monotonic(d, i, j - 1);
        assert(d.take(j).drop_last() =~= d.take(j - 1));
    }
}

/// Reads `s` as an unsigned decimal integer.
pub fn read_usize(s: &Vec<char>) -> (r: Result<usize, IntErrorKind>)
    ensures
        r == parse_usize(s@),
{
    if s.len() == 0 {
        return Err(IntErrorKind::Empty);
    }
    let start: usize = if s[0] == '+' {
        1
    } else {
        0
    };
    let ghost d = if s@[0] == '+' {
        s@.drop_first()
    } else {
        s@
    };
    assert(d =~= s@.subrange(start as int, s.len() as int));
    assert(parse_usize(s@) == parse_digits(d));
    if start == s.len() {
        return Err(IntErrorKind::InvalidDigit);
    }
    let mut acc: usize = 0;
    let mut i: usize = start;
    while i < s.len()
        invariant
            start <= i <= s.len(),
            d =~= s@.subrange(start as int, s.len() as int),
            parse_usize(s@) == parse_digits(d),
            d.len() > 0,
            forall|k: int| 0 <= k < i - start ==> is_digit(#[trigger] d[k]),
            acc == digits_value(d.take(i - start)),
        decreases s.len() - i,
    {
        let c = s[i];
        assert(d[i - start] == c);
        assert(d.take(i - start + 1).drop_last() =~= d.take(i - start));
        if !('0' <= c && c <= '9') {
            proof {
                assert(digit_run(d) == i - start) by {
                    lemma_digit_run_exact(d, (i - start) as int);
                }
            }
            return Err(IntErrorKind::InvalidDigit);
        }
        let v = (c as u32 - '0' as u32) as usize;
        match acc.checked_mul(10) {
            None => {
                proof { lemma_overflow_reported(d, (i - start) as int); }
                return Err(IntErrorKind::PosOverflow);
            },
            Some(m) => match m.checked_add(v) {
                None => {
                    proof { lemma_overflow_reported(d, (i - start) as int); }
                    return Err(IntErrorKind::PosOverflow);
                },
                Some(n) => {
                    acc = n;
                },
            },
        }
        i += 1;
    }
    proof {
        lemma_digit_run_exact(d, d.len() as int);
        assert(d.take(d.len() as int) =~= d);
    }
    Ok(acc)
}

proof fn lemma_digit_run_exact(d: Seq<char>, n: int)
    requires
        0 <= n <= d.len(),
        forall|k: int| 0 <= k < n ==> is_digit(#[trigger] d[k]),
        n == d.len() || !is_digit(d[n]),
    ensures
        digit_run(d) == n,
    decreases n,
{
    if n > 0 {
        assert forall|k: int| 0 <= k < n - 1 implies is_digit(#[trigger] d.drop_first()[k]) by {
            assert(d.drop_first()[k] == d[k + 1]);
        }
        lemma_digit_run_exact(d.drop_first(), n - 1);
    }
}

/// A digit at `i`, after digits only, that takes the value past `usize::MAX` makes reading
/// fail with an overflow.
proof fn lemma_overflow_reported(d: Seq<char>, i: int)
    requires
        0 <= i < d.len(),
        forall|k: int| 0 <= k <= i ==> is_digit(#[trigger] d[k]),
        digits_value(d.take(i + 1)) > usize::MAX,
    ensures
        digits_value(d.take(digit_run(d) as int)) > usize::MAX,
{
    let k = digit_run(d);
    lemma_digit_run(d, 0);
    assert(k > i) by {
        if k <= i {
            lemma_digit_run(d, k as int);
        }
    }
    assert forall|j: int| 0 <= j < k implies is_digit(#[trigger] d[j]) by {
        lemma_digit_run(d, j);
    }
    lemma_digits_monotonic(d, i + 1, k as int);
}

/// The decimal digit for `d`, below ten.
pub open spec fn digit_char(d: nat) -> char {
    seq!['0', '1', '2', '3', '4', '5', '6', '7', '8', '9'][d as int]
}

/// The decimal notation of `n`, without leading zeros.
pub open spec fn decimal(n: nat) -> Seq<char>
    decreases n,
{
    if n < 10 {
        seq![digit_char(n)]
    } else {
        decimal(n / 10).push(digit_char(n % 10))
    }
}

fn digit_of(d: usize) -> (c: char)
    requires
        d < 10,
    ensures
        c == digit_char(d as nat),
{
    let digits = ['0', '1', '2', '3', '4', '5', '6', '7', '8', '9'];
    assert(digits@ == seq!['0', '1', '2', '3', '4', '5', '6', '7', '8', '9']);
    digits[d]
}

/// Appends the decimal notation of `n` to `out`.
pub fn push_decimal(out: &mut Vec<char>, n: usize)
    ensures
        final(out)@ == old(out)@ + decimal(n as nat),
    decreases n,
{
    if n >= 10 {
        push_decimal(out, n / 10);
    }
    out.push(digit_of(n % 10));
}

pub fn same_chars(a: &Vec<char>, b: &Vec<char>) -> (r: bool)
    ensures
        r == (a@ == b@),
{
    if a.len() != b.len() {
        return false;
    }
    let mut i: usize = 0;
    while i < a.len()
        invariant
            i <= a.len() == b.len(),
            forall|k: int| 0 <= k < i ==> a@[k] == b@[k],
        decreases a.len() - i,
    {
        if a[i] != b[i] {
            return false;
        }
        i += 1;
    }
    assert(a@ =~= b@);
    true
}

/// Whether `tok` is exactly `word`.
pub fn is_word(tok: &Vec<char>, word: &str) -> (r: bool)
    ensures
        r == (tok@ == word@),
{
    let w = chars_of(word);
    same_chars(tok, &w)
}

} // verus!
