//! Score ledger: serializes and parses the persisted record of high scores
//! and line counts.
//!
//! The persisted form is two lines of whitespace-separated decimal integers,
//! high scores first, line counts second, each line terminated by a newline.
//! Parsing is fail-soft: content that does not split into two lines yields
//! "no records", and tokens that do not parse as non-negative integers are
//! silently dropped from their line. The functions here work on in-memory
//! text; reading and writing the backing store is the caller's concern.
use vstd::prelude::*;
use vstd::string::StrSliceExecFns;
use vstd::string::StringExecFns;

verus! {

/// Whether `c` is a decimal digit.
pub open spec fn is_digit(c: char) -> bool {
    48 <= c as int <= 57
}

/// The numeric value of a digit character.
pub open spec fn digit_val(c: char) -> int {
    c as int - 48
}

/// The digit character for a value in 0..=9.
pub open spec fn digit_char(d: int) -> char {
    if d == 0 {
        '0'
    } else if d == 1 {
        '1'
    } else if d == 2 {
        '2'
    } else if d == 3 {
        '3'
    } else if d == 4 {
        '4'
    } else if d == 5 {
        '5'
    } else if d == 6 {
        '6'
    } else if d == 7 {
        '7'
    } else if d == 8 {
        '8'
    } else {
        '9'
    }
}

/// The value of a sequence of digit characters read in base 10.
pub open spec fn digits_val(s: Seq<char>) -> int
    decreases s.len(),
{
    if s.len() == 0 {
        0
    } else {
        digits_val(s.drop_last()) * 10 + digit_val(s.last())
    }
}

/// The decimal digits of a non-negative integer, most significant first.
pub open spec fn dec_digits(n: int) -> Seq<char>
    decreases n,
{
    if n < 10 {
        seq![digit_char(n)]
    } else {
        dec_digits(n / 10).push(digit_char(n % 10))
    }
}

/// The decimal rendering of one number.
pub open spec fn render_u32(n: u32) -> Seq<char> {
    dec_digits(n as int)
}

/// One line of the persisted record: the numbers in order, separated by
/// single spaces, with no terminator.
pub open spec fn render_line(xs: Seq<u32>) -> Seq<char>
    decreases xs.len(),
{
    if xs.len() == 0 {
        Seq::empty()
    } else if xs.len() == 1 {
        render_u32(xs[0])
    } else {
        render_u32(xs[0]) + seq![' '] + render_line(xs.drop_first())
    }
}

/// The full persisted record: the high-score line, then the line-count
/// line, each terminated by a newline.
pub open spec fn render_scores(h: Seq<u32>, l: Seq<u32>) -> Seq<char> {
    render_line(h) + seq!['\n'] + render_line(l) + seq!['\n']
}

/// The digits of a token, after an optional leading plus sign.
pub open spec fn token_digits(t: Seq<char>) -> Seq<char> {
    if t.len() > 0 && t[0] == '+' {
        t.subrange(1, t.len() as int)
    } else {
        t
    }
}

/// Whether a token is a well-formed non-negative decimal integer that fits
/// in a `u32`: an optional leading plus sign, then at least one digit, with
/// a value of at most `u32::MAX`.
pub open spec fn token_parses(t: Seq<char>) -> bool {
    let d = token_digits(t);
    &&& d.len() > 0
    &&& forall|i: int| 0 <= i < d.len() ==> is_digit(#[trigger] d[i])
    &&& digits_val(d) <= u32::MAX
}

/// The parse of one token: its value if it is well formed, else nothing.
pub open spec fn parse_token(t: Seq<char>) -> Option<u32> {
    if token_parses(t) {
        Some(digits_val(token_digits(t)) as u32)
    } else {
        None
    }
}

/// The pieces of `s` between occurrences of the separator `sep`, in order;
/// an empty `s` yields one empty piece, as splitting does.
pub open spec fn split_char(s: Seq<char>, sep: char) -> Seq<Seq<char>>
    decreases s.len(),
{
    if s.len() == 0 {
        seq![Seq::<char>::empty()]
    } else if s[0] == sep {
        seq![Seq::<char>::empty()] + split_char(s.drop_first(), sep)
    } else {
        let rest = split_char(s.drop_first(), sep);
        seq![seq![s[0]] + rest[0]] + rest.drop_first()
    }
}

/// The values of the tokens that parse, in order; tokens that do not parse
/// are silently dropped.
pub open spec fn parse_tokens(ts: Seq<Seq<char>>) -> Seq<u32>
    decreases ts.len(),
{
    if ts.len() == 0 {
        Seq::empty()
    } else {
        let rest = parse_tokens(ts.drop_first());
        match parse_token(ts[0]) {
            Some(v) => seq![v] + rest,
            None => rest,
        }
    }
}

/// The parse of one line of the record: the values of its space-separated
/// tokens that parse as non-negative integers.
pub open spec fn parse_line(line: Seq<char>) -> Seq<u32> {
    parse_tokens(split_char(line, ' '))
}

/// The index of the first newline in `s`, or `s.len()` if there is none.
pub open spec fn first_newline(s: Seq<char>) -> int
    decreases s.len(),
{
    if s.len() == 0 {
        0
    } else if s[0] == '\n' {
        0
    } else {
        1 + first_newline(s.drop_first())
    }
}

/// The parse of the whole persisted record. Content with no newline does
/// not split into two lines and yields "no records". Otherwise the first
/// line is the high scores and everything after the first newline — less
/// one trailing newline, if present — is the line counts.
pub open spec fn parse_scores(s: Seq<char>) -> Option<(Seq<u32>, Seq<u32>)> {
    let i = first_newline(s);
    if i == s.len() {
        None
    } else {
        let line1 = s.subrange(0, i);
        let rest = s.subrange(i + 1, s.len() as int);
        let line2 = if rest.len() > 0 && rest.last() == '\n' {
            rest.drop_last()
        } else {
            rest
        };
        Some((parse_line(line1), parse_line(line2)))
    }
}

/// Every digit character is a digit with its own value.
proof fn lemma_digit_char(d: int)
    requires
        0 <= d < 10,
    ensures
        is_digit(digit_char(d)),
        digit_val(digit_char(d)) == d,
{
}

/// The decimal rendering of a non-negative integer is a non-empty sequence
/// of digit characters.
proof fn lemma_dec_digits_digits(n: int)
    requires
        n >= 0,
    ensures
        dec_digits(n).len() >= 1,
        forall|i: int| 0 <= i < dec_digits(n).len() ==> is_digit(#[trigger] dec_digits(n)[i]),
    decreases n,
{
    if n < 10 {
        lemma_digit_char(n);
    } else {
        lemma_dec_digits_digits(n / 10);
        lemma_digit_char(n % 10);
        assert forall|i: int| 0 <= i < dec_digits(n).len() implies is_digit(
            dec_digits(n)[i],
        ) by {
            if i < dec_digits(n / 10).len() {
                assert(dec_digits(n)[i] == dec_digits(n / 10)[i]);
            } else {
                assert(dec_digits(n)[i] == digit_char(n % 10));
            }
        }
    }
}

/// Reading back the decimal rendering of a non-negative integer yields the
/// integer itself.
proof fn lemma_dec_digits_val(n: int)
    requires
        n >= 0,
    ensures
        digits_val(dec_digits(n)) == n,
    decreases n,
{
    if n < 10 {
        lemma_digit_char(n);
        let s = dec_digits(n);
        assert(s == seq![digit_char(n)]);
        assert(s.len() == 1);
        assert(s.last() == digit_char(n));
        assert(s.drop_last() =~= Seq::<char>::empty());
        assert(digits_val(s.drop_last()) == 0);
        assert(digits_val(s) == 0 * 10 + digit_val(digit_char(n)));
    } else {
        lemma_dec_digits_val(n / 10);
        lemma_digit_char(n % 10);
        let d = dec_digits(n / 10);
        let s = dec_digits(n);
        assert(s == d.push(digit_char(n % 10)));
        assert(s.len() == d.len() + 1);
        assert(s.drop_last() =~= d);
        assert(s.last() == digit_char(n % 10));
        assert(digits_val(s) == digits_val(d) * 10 + digit_val(digit_char(n % 10)));
        assert(digits_val(s) == (n / 10) * 10 + (n % 10));
    }
}

fn digit_str(d: u8) -> (s: &'static str)
    requires
        d < 10,
    ensures
        s@ == seq![digit_char(d as int)],
{
    if d == 0 {
        proof {
            reveal_strlit("0");
            assert("0"@ =~= seq![digit_char(0)]);
        }
        "0"
    } else if d == 1 {
        proof {
            reveal_strlit("1");
            assert("1"@ =~= seq![digit_char(1)]);
        }
        "1"
    } else if d == 2 {
        proof {
            reveal_strlit("2");
            assert("2"@ =~= seq![digit_char(2)]);
        }
        "2"
    } else if d == 3 {
        proof {
            reveal_strlit("3");
            assert("3"@ =~= seq![digit_char(3)]);
        }
        "3"
    } else if d == 4 {
        proof {
            reveal_strlit("4");
            assert("4"@ =~= seq![digit_char(4)]);
        }
        "4"
    } else if d == 5 {
        proof {
            reveal_strlit("5");
            assert("5"@ =~= seq![digit_char(5)]);
        }
        "5"
    } else if d == 6 {
        proof {
            reveal_strlit("6");
            assert("6"@ =~= seq![digit_char(6)]);
        }
        "6"
    } else if d == 7 {
        proof {
            reveal_strlit("7");
            assert("7"@ =~= seq![digit_char(7)]);
        }
        "7"
    } else if d == 8 {
        proof {
            reveal_strlit("8");
            assert("8"@ =~= seq![digit_char(8)]);
        }
        "8"
    } else {
        proof {
            reveal_strlit("9");
            assert("9"@ =~= seq![digit_char(9)]);
        }
        "9"
    }
}

/// The digit characters of `digs` read back to front.
spec fn rev_digit_chars(digs: Seq<u8>) -> Seq<char> {
    Seq::new(digs.len(), |i: int| digit_char(digs[digs.len() - 1 - i] as int))
}

/// Appends the decimal rendering of `n` to `out`.
fn push_u32(out: &mut String, n: u32)
    ensures
        final(out)@ == old(out)@ + render_u32(n),
{
    let mut digs: Vec<u8> = Vec::new();
    let first: u8 = (n % 10) as u8;
    proof {
        let digs1 = seq![first];
        assert(rev_digit_chars(digs1) =~= seq![digit_char(first as int)]);
        if n < 10 {
            assert(dec_digits(n as int) == seq![digit_char(n as int)]);
            assert(dec_digits(n as int) =~= rev_digit_chars(digs1));
        } else {
            assert(dec_digits(n as int) == dec_digits(n as int / 10).push(
                digit_char((n as int) % 10),
            ));
            assert(dec_digits(n as int) =~= dec_digits((n / 10) as int) + rev_digit_chars(
                digs1,
            ));
        }
    }
    digs.push(first);
    let mut m: u32 = n / 10;
    while m > 0
        invariant
            digs@.len() > 0,
            forall|j: int| 0 <= j < digs@.len() ==> (#[trigger] digs@[j]) < 10,
            m == 0 ==> dec_digits(n as int) == rev_digit_chars(digs@),
            m != 0 ==> dec_digits(n as int) == dec_digits(m as int) + rev_digit_chars(digs@),
        decreases m,
    {
        let d: u8 = (m % 10) as u8;
        let m2: u32 = m / 10;
        proof {
            let digs2 = digs@.push(d);
            assert(rev_digit_chars(digs2) =~= seq![digit_char(d as int)] + rev_digit_chars(
                digs@,
            ));
            if m2 == 0 {
                assert(m < 10);
                assert(dec_digits(m as int) == seq![digit_char(m as int)]);
                assert(m as int == d as int);
                assert(dec_digits(n as int) =~= rev_digit_chars(digs2));
            } else {
                assert(m >= 10);
                assert(dec_digits(m as int) == dec_digits(m2 as int).push(
                    digit_char((m as int) % 10),
                ));
                assert(dec_digits(m as int) =~= dec_digits(m2 as int) + seq![
                    digit_char(d as int),
                ]);
                assert(dec_digits(n as int) =~= dec_digits(m2 as int) + rev_digit_chars(digs2));
            }
        }
        digs.push(d);
        m = m2;
    }
    let ghost pre = out@;
    let k = digs.len();
    let mut i: usize = k;
    proof {
        assert(rev_digit_chars(digs@).subrange(0, 0) =~= Seq::<char>::empty());
    }
    while i > 0
        invariant
            i <= k,
            k == digs@.len(),
            forall|j: int| 0 <= j < digs@.len() ==> (#[trigger] digs@[j]) < 10,
            dec_digits(n as int) == rev_digit_chars(digs@),
            out@ == pre + rev_digit_chars(digs@).subrange(0, k - i),
        decreases i,
    {
        i = i - 1;
        let s = digit_str(digs[i]);
        out.append(s);
        proof {
            assert(rev_digit_chars(digs@)[k - 1 - i] == digit_char(digs@[i as int] as int));
            assert(out@ =~= pre + rev_digit_chars(digs@).subrange(0, k - i));
        }
    }
    proof {
        assert(rev_digit_chars(digs@).subrange(0, k as int) =~= rev_digit_chars(digs@));
    }
}

/// Serializes one sequence of numbers as one line of the persisted record:
/// decimal values separated by single spaces.
pub fn slice_to_string(slice: &[u32]) -> (r: String)
    ensures
        r@ == render_line(slice@),
{
    let mut out = String::new();
    let n = slice.len();
    let mut i: usize = 0;
    while i < n
        invariant
            i <= n,
            n == slice@.len(),
            i == 0 ==> out@ == Seq::<char>::empty(),
            i > 0 ==> render_line(slice@) == out@ + sep_render(slice@.subrange(i as int, n as int)),
        decreases n - i,
    {
        let ghost pre = out@;
        if i > 0 {
            proof {
                reveal_strlit(" ");
            }
            out.append(" ");
        }
        push_u32(&mut out, slice[i]);
        proof {
            let ghost suf = slice@.subrange(i as int, n as int);
            assert(suf.len() > 0);
            assert(suf[0] == slice@[i as int]);
            assert(suf.drop_first() =~= slice@.subrange(i + 1, n as int));
            if i == 0 {
                if n == 1 {
                    assert(render_line(slice@) =~= out@);
                } else {
                    assert(render_line(slice@) =~= out@ + sep_render(
                        slice@.subrange(i + 1, n as int),
                    ));
                }
            } else {
                assert(" "@ =~= seq![' ']) by {
                    reveal_strlit(" ");
                }
                if suf.len() == 1 {
                    assert(render_line(suf) == render_u32(suf[0]));
                    assert(pre + sep_render(suf) =~= out@);
                    assert(render_line(slice@) =~= out@ + sep_render(
                        slice@.subrange(i + 1, n as int),
                    ));
                } else {
                    assert(render_line(suf) == render_u32(suf[0]) + seq![' '] + render_line(
                        suf.drop_first(),
                    ));
                    assert(render_line(slice@) =~= out@ + sep_render(
                        slice@.subrange(i + 1, n as int),
                    ));
                }
            }
        }
        i = i + 1;
    }
    proof {
        if n > 0 {
            assert(slice@.subrange(n as int, n as int) =~= Seq::<u32>::empty());
            assert(render_line(slice@) =~= out@);
        } else {
            assert(render_line(slice@) =~= out@);
        }
    }
    out
}

/// The tail of a line rendering: empty for no remaining numbers, else a
/// separating space followed by the rendering of the rest.
pub open spec fn sep_render(xs: Seq<u32>) -> Seq<char> {
    if xs.len() == 0 {
        Seq::empty()
    } else {
        seq![' '] + render_line(xs)
    }
}

/// Serializes the two sequences as the full two-line persisted record,
/// high scores first. The caller writes the returned text to the backing
/// store as a whole-file overwrite; the serialization itself cannot fail.
pub fn save_highscores_and_lines(highscores: &[u32], number_of_lines: &[u32]) -> (r: String)
    ensures
        r@ == render_scores(highscores@, number_of_lines@),
{
    let mut out = slice_to_string(highscores);
    proof {
        reveal_strlit("\n");
        assert("\n"@ =~= seq!['\n']);
    }
    out.append("\n");
    let second = slice_to_string(number_of_lines);
    out.append(second.as_str());
    out.append("\n");
    proof {
        assert(out@ =~= render_scores(highscores@, number_of_lines@));
    }
    out
}

/// The value of a digit sequence is non-negative.
proof fn lemma_digits_val_nonneg(s: Seq<char>)
    requires
        forall|i: int| 0 <= i < s.len() ==> is_digit(#[trigger] s[i]),
    ensures
        digits_val(s) >= 0,
    decreases s.len(),
{
    if s.len() > 0 {
        lemma_digits_val_nonneg(s.drop_last());
        assert(is_digit(s.last()));
    }
}

/// The value of a prefix of a digit sequence never exceeds the value of the
/// whole sequence.
proof fn lemma_digits_val_prefix(s: Seq<char>, i: int)
    requires
        forall|j: int| 0 <= j < s.len() ==> is_digit(#[trigger] s[j]),
        0 <= i <= s.len(),
    ensures
        digits_val(s.subrange(0, i)) <= digits_val(s),
    decreases s.len(),
{
    if i == s.len() {
        assert(s.subrange(0, i) =~= s);
    } else {
        let dl = s.drop_last();
        assert(s.subrange(0, i) =~= dl.subrange(0, i));
        lemma_digits_val_prefix(dl, i);
        lemma_digits_val_nonneg(dl);
        assert(is_digit(s.last()));
        assert(digits_val(s) == digits_val(dl) * 10 + digit_val(s.last()));
        assert(digits_val(dl) * 10 >= digits_val(dl));
    }
}

/// Splitting always yields at least one piece.
proof fn lemma_split_len(s: Seq<char>, sep: char)
    ensures
        split_char(s, sep).len() >= 1,
    decreases s.len(),
{
    if s.len() > 0 {
        lemma_split_len(s.drop_first(), sep);
    }
}

/// Splitting a sequence that holds no separator yields that sequence as the
/// only piece.
proof fn lemma_split_no_sep(s: Seq<char>, sep: char)
    requires
        forall|j: int| 0 <= j < s.len() ==> (#[trigger] s[j]) != sep,
    ensures
        split_char(s, sep) == seq![s],
    decreases s.len(),
{
    if s.len() == 0 {
        assert(s =~= Seq::<char>::empty());
        assert(split_char(s, sep) =~= seq![s]);
    } else {
        assert(s[0] != sep);
        lemma_split_no_sep(s.drop_first(), sep);
        let rest = split_char(s.drop_first(), sep);
        assert(rest == seq![s.drop_first()]);
        assert(seq![s[0]] + rest[0] =~= s);
        assert(rest.drop_first() =~= Seq::<Seq<char>>::empty());
        assert(split_char(s, sep) =~= seq![s]);
    }
}

/// Splitting at the first separator: the piece before it, then the split of
/// everything after it.
proof fn lemma_split_first_sep(s: Seq<char>, sep: char, i: int)
    requires
        0 <= i < s.len(),
        forall|j: int| 0 <= j < i ==> (#[trigger] s[j]) != sep,
        s[i] == sep,
    ensures
        split_char(s, sep) == seq![s.subrange(0, i)] + split_char(
            s.subrange(i + 1, s.len() as int),
            sep,
        ),
    decreases i,
{
    if i == 0 {
        assert(s.subrange(0, 0) =~= Seq::<char>::empty());
        assert(s.drop_first() =~= s.subrange(1, s.len() as int));
    } else {
        assert(s[0] != sep);
        let d = s.drop_first();
        assert(forall|j: int| 0 <= j < i - 1 ==> (#[trigger] d[j]) != sep);
        assert(d[i - 1] == sep);
        lemma_split_first_sep(d, sep, i - 1);
        let rest = split_char(d, sep);
        assert(rest == seq![d.subrange(0, i - 1)] + split_char(
            d.subrange(i, d.len() as int),
            sep,
        ));
        lemma_split_len(d.subrange(i, d.len() as int), sep);
        assert(rest[0] == d.subrange(0, i - 1));
        assert(seq![s[0]] + rest[0] =~= s.subrange(0, i));
        assert(rest.drop_first() =~= split_char(d.subrange(i, d.len() as int), sep));
        assert(d.subrange(i, d.len() as int) =~= s.subrange(i + 1, s.len() as int));
        assert(split_char(s, sep) =~= seq![s.subrange(0, i)] + split_char(
            s.subrange(i + 1, s.len() as int),
            sep,
        ));
    }
}

/// The first newline is where a left-to-right scan finds it.
proof fn lemma_first_newline_at(s: Seq<char>, i: int)
    requires
        0 <= i <= s.len(),
        forall|j: int| 0 <= j < i ==> (#[trigger] s[j]) != '\n',
        i < s.len() ==> s[i] == '\n',
        i == s.len() ==> forall|j: int| 0 <= j < s.len() ==> (#[trigger] s[j]) != '\n',
    ensures
        first_newline(s) == i,
    decreases i,
{
    if s.len() == 0 {
    } else if i == 0 {
    } else {
        assert(s[0] != '\n');
        let d = s.drop_first();
        assert(forall|j: int| 0 <= j < i - 1 ==> (#[trigger] d[j]) != '\n');
        lemma_first_newline_at(d, i - 1);
    }
}

/// The characters of a string, in order, as a vector.
fn chars_of(s: &str) -> (v: Vec<char>)
    ensures
        v@ == s@,
{
    let n = s.unicode_len();
    let mut v: Vec<char> = Vec::new();
    proof {
        assert(v@ =~= s@.subrange(0, 0));
    }
    let mut i: usize = 0;
    while i < n
        invariant
            i <= n,
            n == s@.len(),
            v@ == s@.subrange(0, i as int),
        decreases n - i,
    {
        let c = s.get_char(i);
        v.push(c);
        proof {
            assert(v@ =~= s@.subrange(0, i + 1));
        }
        i = i + 1;
    }
    proof {
        assert(s@.subrange(0, n as int) =~= s@);
    }
    v
}

/// The parse of the token standing at `from..to` in `cs`.
fn parse_token_range(cs: &Vec<char>, from: usize, to: usize) -> (r: Option<u32>)
    requires
        from <= to <= cs@.len(),
    ensures
        r == parse_token(cs@.subrange(from as int, to as int)),
{
    let ghost t = cs@.subrange(from as int, to as int);
    if from == to {
        proof {
            assert(token_digits(t) == t);
            assert(!token_parses(t));
            assert(parse_token(t) is None);
        }
        return None;
    }
    let start: usize = if cs[from] == '+' {
        from + 1
    } else {
        from
    };
    let ghost d = cs@.subrange(start as int, to as int);
    proof {
        assert(t[0] == cs@[from as int]);
        if cs@[from as int] == '+' {
            assert(token_digits(t) =~= d);
        } else {
            assert(token_digits(t) =~= d);
        }
    }
    if start == to {
        proof {
            assert(token_digits(t).len() == 0);
            assert(!token_parses(t));
            assert(parse_token(t) is None);
        }
        return None;
    }
    let mut acc: u64 = 0;
    let mut i: usize = start;
    proof {
        assert(d.subrange(0, 0) =~= Seq::<char>::empty());
    }
    while i < to
        invariant
            start <= i <= to,
            to <= cs@.len(),
            t == cs@.subrange(from as int, to as int),
            d == cs@.subrange(start as int, to as int),
            d == token_digits(t),
            d.len() == to - start,
            forall|j: int| 0 <= j < i - start ==> is_digit(#[trigger] d[j]),
            acc <= u32::MAX as u64,
            acc as int == digits_val(d.subrange(0, i - start)),
        decreases to - i,
    {
        let c = cs[i];
        proof {
            assert(d[i - start] == cs@[i as int]);
        }
        if c < '0' || c > '9' {
            proof {
                assert(!is_digit(d[i - start]));
                assert(!token_parses(t));
                assert(parse_token(t) is None);
            }
            return None;
        }
        proof {
            assert(48 <= c as int <= 57);
        }
        let u = c as u32;
        proof {
            assert(u as int == c as int);
        }
        let dv: u64 = (u - 48) as u64;
        let acc2: u64 = acc * 10 + dv;
        proof {
            let p1 = d.subrange(0, i - start);
            let p2 = d.subrange(0, i + 1 - start);
            assert(p2.drop_last() =~= p1);
            assert(p2.last() == d[i - start]);
            assert(is_digit(d[i - start]));
            assert(digit_val(d[i - start]) == dv as int);
            assert(digits_val(p2) == digits_val(p1) * 10 + digit_val(d[i - start]));
            assert(acc2 as int == digits_val(p2));
        }
        if acc2 > 4294967295u64 {
            proof {
                let p2 = d.subrange(0, i + 1 - start);
                if token_parses(t) {
                    lemma_digits_val_prefix(d, i + 1 - start);
                    assert(digits_val(d) >= digits_val(p2));
                    assert(false);
                }
                assert(parse_token(t) is None);
            }
            return None;
        }
        acc = acc2;
        i = i + 1;
    }
    proof {
        assert(d.subrange(0, to - start) =~= d);
        assert(forall|j: int| 0 <= j < d.len() ==> is_digit(#[trigger] d[j]));
        assert(token_parses(t));
    }
    Some(acc as u32)
}

/// The parse of the line standing at `from..to` in `cs`: the values of its
/// space-separated tokens that parse, in order.
fn parse_line_range(cs: &Vec<char>, from: usize, to: usize) -> (v: Vec<u32>)
    requires
        from <= to <= cs@.len(),
    ensures
        v@ == parse_line(cs@.subrange(from as int, to as int)),
{
    let ghost line = cs@.subrange(from as int, to as int);
    let mut out: Vec<u32> = Vec::new();
    let mut start: usize = from;
    let mut done = false;
    proof {
        assert(out@ =~= Seq::<u32>::empty());
    }
    while !done
        invariant
            from <= start <= to <= cs@.len(),
            line == cs@.subrange(from as int, to as int),
            !done ==> parse_line(line) == out@ + parse_tokens(
                split_char(cs@.subrange(start as int, to as int), ' '),
            ),
            done ==> out@ == parse_line(line),
        decreases to - start + (if done { 0int } else { 1int }),
    {
        let mut end = start;
        while end < to && cs[end] != ' '
            invariant
                start <= end <= to <= cs@.len(),
                forall|j: int| start <= j < end ==> cs@[j] != ' ',
            decreases to - end,
        {
            end = end + 1;
        }
        let r = parse_token_range(cs, start, end);
        let ghost pre = out@;
        match r {
            Some(v) => { out.push(v) },
            None => {},
        }
        proof {
            let rem = cs@.subrange(start as int, to as int);
            let tok = cs@.subrange(start as int, end as int);
            assert(tok =~= rem.subrange(0, end - start));
            if end == to {
                assert(forall|j: int| 0 <= j < rem.len() ==> (#[trigger] rem[j]) != ' ');
                lemma_split_no_sep(rem, ' ');
                assert(tok =~= rem);
                let ts = seq![rem];
                assert(ts.drop_first() =~= Seq::<Seq<char>>::empty());
                assert(parse_tokens(ts.drop_first()) =~= Seq::<u32>::empty());
                match parse_token(tok) {
                    Some(v) => {
                        assert(parse_tokens(ts) =~= seq![v]);
                        assert(out@ =~= pre + seq![v]);
                    },
                    None => {
                        assert(parse_tokens(ts) =~= Seq::<u32>::empty());
                        assert(out@ =~= pre);
                    },
                }
                assert(out@ =~= parse_line(line));
            } else {
                assert(cs@[end as int] == ' ');
                assert(rem[end - start] == ' ');
                assert(forall|j: int| 0 <= j < end - start ==> (#[trigger] rem[j]) != ' ');
                lemma_split_first_sep(rem, ' ', end - start);
                let rem2 = cs@.subrange(end + 1, to as int);
                assert(rem.subrange(end - start + 1, rem.len() as int) =~= rem2);
                let rest_split = split_char(rem2, ' ');
                let ts = seq![tok] + rest_split;
                assert(split_char(rem, ' ') == ts);
                lemma_split_len(rem2, ' ');
                assert(ts[0] == tok);
                assert(ts.drop_first() =~= rest_split);
                match parse_token(tok) {
                    Some(v) => {
                        assert(parse_tokens(ts) =~= seq![v] + parse_tokens(rest_split));
                        assert(out@ =~= pre + seq![v]);
                    },
                    None => {
                        assert(parse_tokens(ts) =~= parse_tokens(rest_split));
                        assert(out@ =~= pre);
                    },
                }
                assert(parse_line(line) == out@ + parse_tokens(rest_split));
            }
        }
        if end == to {
            done = true;
        } else {
            start = end + 1;
        }
    }
    out
}

/// The parse of one line of text: the whitespace-separated tokens that
/// parse as non-negative integers, in order, with unparsable tokens
/// silently dropped.
pub fn line_to_slice(line: &str) -> (v: Vec<u32>)
    ensures
        v@ == parse_line(line@),
{
    let cs = chars_of(line);
    let n = cs.len();
    let r = parse_line_range(&cs, 0, n);
    proof {
        assert(cs@.subrange(0, n as int) =~= cs@);
    }
    r
}

/// Parses the whole persisted record, fail-soft: `None` ("no records") when
/// the content does not split into two lines on the first newline; within a
/// line, unparsable tokens are silently dropped. The caller reads the
/// backing store and hands its content here; a store that does not exist or
/// cannot be read is itself "no records".
pub fn load_highscores_and_lines(content: &str) -> (r: Option<(Vec<u32>, Vec<u32>)>)
    ensures
        r is Some <==> parse_scores(content@) is Some,
        r matches Some(p) ==> parse_scores(content@) == Some((p.0@, p.1@)),
{
    let cs = chars_of(content);
    let n = cs.len();
    let mut i: usize = 0;
    while i < n && cs[i] != '\n'
        invariant
            i <= n,
            n == cs@.len(),
            cs@ == content@,
            forall|j: int| 0 <= j < i ==> cs@[j] != '\n',
        decreases n - i,
    {
        i = i + 1;
    }
    proof {
        lemma_first_newline_at(content@, i as int);
    }
    if i == n {
        return None;
    }
    let h = parse_line_range(&cs, 0, i);
    let rest_start = i + 1;
    let end2: usize = if n > rest_start && cs[n - 1] == '\n' {
        n - 1
    } else {
        n
    };
    let l = parse_line_range(&cs, rest_start, end2);
    proof {
        let s = content@;
        let rest = s.subrange(i + 1, s.len() as int);
        assert(s.subrange(0, i as int) == cs@.subrange(0, i as int));
        if rest.len() > 0 && rest.last() == '\n' {
            assert(rest.last() == s[s.len() - 1]);
            assert(end2 == n - 1);
            assert(rest.drop_last() =~= cs@.subrange(rest_start as int, end2 as int));
        } else {
            assert(end2 == n);
            assert(rest =~= cs@.subrange(rest_start as int, end2 as int));
        }
    }
    Some((h, l))
}


/// The decimal rendering of a number parses back to exactly that number.
proof fn lemma_parse_render_u32(n: u32)
    ensures
        parse_token(render_u32(n)) == Some(n),
{
    let t = render_u32(n);
    lemma_dec_digits_digits(n as int);
    lemma_dec_digits_val(n as int);
    assert(is_digit(t[0]));
    assert(t[0] != '+');
    assert(token_digits(t) == t);
    assert(token_parses(t));
}

/// Every character of a rendered line is a digit or a separating space.
proof fn lemma_render_line_chars(xs: Seq<u32>)
    ensures
        forall|i: int|
            0 <= i < render_line(xs).len() ==> is_digit(#[trigger] render_line(xs)[i])
                || render_line(xs)[i] == ' ',
    decreases xs.len(),
{
    if xs.len() == 0 {
    } else if xs.len() == 1 {
        lemma_dec_digits_digits(xs[0] as int);
    } else {
        lemma_dec_digits_digits(xs[0] as int);
        lemma_render_line_chars(xs.drop_first());
        let ru = render_u32(xs[0]);
        let rl = render_line(xs.drop_first());
        let s = render_line(xs);
        assert forall|i: int| 0 <= i < s.len() implies is_digit(s[i]) || s[i] == ' ' by {
            if i < ru.len() {
                assert(s[i] == ru[i]);
            } else if i == ru.len() {
                assert(s[i] == ' ');
            } else {
                assert(s[i] == rl[i - ru.len() - 1]);
            }
        }
    }
}

/// Parsing a rendered line of numbers yields exactly those numbers: no
/// token is dropped, none is altered.
pub proof fn lemma_parse_render_line(xs: Seq<u32>)
    ensures
        parse_line(render_line(xs)) == xs,
    decreases xs.len(),
{
    let s = render_line(xs);
    if xs.len() == 0 {
        assert(s =~= Seq::<char>::empty());
        let ts = split_char(s, ' ');
        assert(ts == seq![Seq::<char>::empty()]);
        assert(ts[0].len() == 0);
        assert(token_digits(ts[0]) == ts[0]);
        assert(parse_token(ts[0]) is None);
        assert(ts.drop_first() =~= Seq::<Seq<char>>::empty());
        assert(parse_tokens(Seq::<Seq<char>>::empty()) == Seq::<u32>::empty());
        assert(parse_tokens(ts) == parse_tokens(ts.drop_first()));
        assert(parse_line(s) =~= xs);
    } else if xs.len() == 1 {
        lemma_dec_digits_digits(xs[0] as int);
        assert(forall|j: int| 0 <= j < s.len() ==> (#[trigger] s[j]) != ' ');
        lemma_split_no_sep(s, ' ');
        let ts = split_char(s, ' ');
        lemma_parse_render_u32(xs[0]);
        assert(ts[0] == s);
        assert(ts.drop_first() =~= Seq::<Seq<char>>::empty());
        assert(parse_tokens(Seq::<Seq<char>>::empty()) == Seq::<u32>::empty());
        assert(parse_tokens(ts) == seq![xs[0]] + parse_tokens(ts.drop_first()));
        assert(parse_tokens(ts) =~= seq![xs[0]]);
        assert(parse_line(s) =~= xs);
    } else {
        let ru = render_u32(xs[0]);
        let rest = xs.drop_first();
        let rl = render_line(rest);
        let k = ru.len() as int;
        lemma_dec_digits_digits(xs[0] as int);
        assert forall|j: int| 0 <= j < k implies (#[trigger] s[j]) != ' ' by {
            assert(s[j] == ru[j]);
            assert(is_digit(ru[j]));
        }
        assert(s[k] == ' ');
        assert(0 <= k < s.len());
        lemma_split_first_sep(s, ' ', k);
        assert(s.subrange(0, k) =~= ru);
        assert(s.subrange(k + 1, s.len() as int) =~= rl);
        let ts = split_char(s, ' ');
        assert(ts == seq![ru] + split_char(rl, ' '));
        lemma_parse_render_line(rest);
        lemma_parse_render_u32(xs[0]);
        lemma_split_len(rl, ' ');
        assert(ts[0] == ru);
        assert(ts.drop_first() =~= split_char(rl, ' '));
        assert(parse_tokens(ts) =~= seq![xs[0]] + parse_line(rl));
        assert(parse_line(s) =~= xs);
    }
}

/// Round trip of the score ledger: parsing a serialized record reproduces
/// the high scores and line counts exactly, for any two sequences of
/// numbers.
pub proof fn lemma_scores_round_trip(h: Seq<u32>, l: Seq<u32>)
    ensures
        parse_scores(render_scores(h, l)) == Some((h, l)),
{
    let s = render_scores(h, l);
    let rh = render_line(h);
    let rl = render_line(l);
    let k = rh.len() as int;
    lemma_render_line_chars(h);
    lemma_render_line_chars(l);
    assert forall|j: int| 0 <= j < k implies (#[trigger] s[j]) != '\n' by {
        assert(s[j] == rh[j]);
        assert(is_digit(rh[j]) || rh[j] == ' ');
    }
    assert(s.len() == rh.len() + 1 + rl.len() + 1);
    assert(s[k] == '\n');
    lemma_first_newline_at(s, k);
    assert(first_newline(s) == k);
    assert(k < s.len());
    let line1 = s.subrange(0, k);
    assert(line1 =~= rh);
    let rest = s.subrange(k + 1, s.len() as int);
    assert(rest =~= rl + seq!['\n']);
    assert(rest.len() > 0);
    assert(rest.last() == '\n');
    assert(rest.drop_last() =~= rl);
    lemma_parse_render_line(h);
    lemma_parse_render_line(l);
    assert(parse_scores(s) == Some((h, l)));
}

} // verus!
