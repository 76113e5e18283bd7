//! Lines, tokens and decimal numbers in ASCII text.
use vstd::prelude::*;
use vstd::string::StringExecFns;

verus! {

/// The ASCII white space: space, tab, line feed, form feed and carriage return.
pub open spec fn is_space(b: u8) -> bool {
    b == 32 || b == 9 || b == 10 || b == 12 || b == 13
}

/// Whether a byte is ASCII white space.
pub fn byte_is_space(b: u8) -> (r: bool)
    ensures
        r == is_space(b),
{
    b == 32 || b == 9 || b == 10 || b == 12 || b == 13
}

/// The lines of a text: what stands between line feeds. A line feed at the
/// very end starts no further line.
pub open spec fn lines(s: Seq<u8>) -> Seq<Seq<u8>>
    decreases s.len(),
{
    if s.len() == 0 {
        Seq::empty()
    } else {
        let init = s.drop_last();
        let before = lines(init);
        if init.len() > 0 && init.last() != 10 {
            if s.last() == 10 {
                before
            } else {
                before.drop_last().push(before.last().push(s.last()))
            }
        } else {
            if s.last() == 10 {
                before.push(Seq::empty())
            } else {
                before.push(seq![s.last()])
            }
        }
    }
}

/// The tokens of a text: its longest runs of bytes that are no white space.
pub open spec fn tokens(s: Seq<u8>) -> Seq<Seq<u8>>
    decreases s.len(),
{
    if s.len() == 0 {
        Seq::empty()
    } else {
        let init = s.drop_last();
        let before = tokens(init);
        if is_space(s.last()) {
            before
        } else if init.len() > 0 && !is_space(init.last()) {
            before.drop_last().push(before.last().push(s.last()))
        } else {
            before.push(seq![s.last()])
        }
    }
}

/// The byte sequences that a vector of byte vectors holds.
pub open spec fn byte_seqs(v: Seq<Vec<u8>>) -> Seq<Seq<u8>> {
    v.map_values(|x: Vec<u8>| x@)
}

/// A text that ends inside a line has a last line.
pub proof fn lemma_lines_open(s: Seq<u8>)
    requires
        s.len() > 0,
        s.last() != 10,
    ensures
        lines(s).len() > 0,
{
}

/// A text that ends inside a token has a last token.
pub proof fn lemma_tokens_open(s: Seq<u8>)
    requires
        s.len() > 0,
        !is_space(s.last()),
    ensures
        tokens(s).len() > 0,
{
}

/// Splits a text into its lines.
pub fn split_lines(text: &[u8]) -> (out: Vec<Vec<u8>>)
    ensures
        byte_seqs(out@) == lines(text@),
{
    let mut out: Vec<Vec<u8>> = Vec::new();
    let mut i: usize = 0;
    assert(text@.take(0) =~= Seq::<u8>::empty());
    while i < text.len()
        invariant
            i <= text.len(),
            byte_seqs(out@) == lines(text@.take(i as int)),
        decreases text.len() - i,
    {
        let c = text[i];
        let ghost prefix = text@.take(i as int);
        let ghost next = text@.take(i as int + 1);
        assert(next.drop_last() =~= prefix);
        assert(next.last() == c);
        let open_line = i > 0 && text[i - 1] != 10;
        if open_line {
            proof {
                lemma_lines_open(prefix);
            }
            if c != 10 {
                let mut line = out.pop().unwrap();
                line.push(c);
                out.push(line);
                assert(byte_seqs(out@) =~= lines(next));
            }
        } else {
            if c == 10 {
                out.push(Vec::new());
            } else {
                let mut line: Vec<u8> = Vec::new();
                line.push(c);
                out.push(line);
            }
            assert(byte_seqs(out@) =~= lines(next));
        }
        i += 1;
    }
    assert(text@.take(text@.len() as int) =~= text@);
    out
}

/// Splits a text into its tokens.
pub fn tokenize(text: &[u8]) -> (out: Vec<Vec<u8>>)
    ensures
        byte_seqs(out@) == tokens(text@),
{
    let mut out: Vec<Vec<u8>> = Vec::new();
    let mut i: usize = 0;
    assert(text@.take(0) =~= Seq::<u8>::empty());
    while i < text.len()
        invariant
            i <= text.len(),
            byte_seqs(out@) == tokens(text@.take(i as int)),
        decreases text.len() - i,
    {
        let c = text[i];
        let ghost prefix = text@.take(i as int);
        let ghost next = text@.take(i as int + 1);
        assert(next.drop_last() =~= prefix);
        assert(next.last() == c);
        if !byte_is_space(c) {
            let open_token = i > 0 && !byte_is_space(text[i - 1]);
            if open_token {
                proof {
                    lemma_tokens_open(prefix);
                }
                let mut token = out.pop().unwrap();
                token.push(c);
                out.push(token);
            } else {
                let mut token: Vec<u8> = Vec::new();
                token.push(c);
                out.push(token);
            }
            assert(byte_seqs(out@) =~= tokens(next));
        }
        i += 1;
    }
    assert(text@.take(text@.len() as int) =~= text@);
    out
}

/// Whether a byte is a decimal digit.
pub open spec fn is_digit(b: u8) -> bool {
    48 <= b <= 57
}

/// Whether a text consists of decimal digits alone.
pub open spec fn all_digits(s: Seq<u8>) -> bool {
    forall|i: int| 0 <= i < s.len() ==> is_digit(#[trigger] s[i])
}

/// The number that a run of decimal digits denotes.
pub open spec fn digits_value(s: Seq<u8>) -> int
    decreases s.len(),
{
    if s.len() == 0 {
        0
    } else {
        10 * digits_value(s.drop_last()) + (s.last() - 48)
    }
}

/// The number that an unsigned decimal numeral denotes: an optional `+` and
/// at least one digit.
pub open spec fn unsigned_value(tok: Seq<u8>) -> Option<int> {
    let body = if tok.len() > 0 && tok[0] == 43 {
        tok.skip(1)
    } else {
        tok
    };
    if body.len() > 0 && all_digits(body) {
        Some(digits_value(body))
    } else {
        None
    }
}

/// The number that a signed decimal numeral denotes: an optional `+` or `-`
/// and at least one digit.
pub open spec fn signed_value(tok: Seq<u8>) -> Option<int> {
    if tok.len() > 0 && tok[0] == 45 {
        let body = tok.skip(1);
        if body.len() > 0 && all_digits(body) {
            Some(-digits_value(body))
        } else {
            None
        }
    } else {
        unsigned_value(tok)
    }
}

/// The position that a token denotes, if it is a numeral that fits.
pub open spec fn index_value(tok: Seq<u8>) -> Option<usize> {
    match unsigned_value(tok) {
        Some(v) => if v <= usize::MAX {
            Some(v as usize)
        } else {
            None
        },
        None => None,
    }
}

/// The 32-bit integer that a token denotes, if it is a numeral that fits.
pub open spec fn literal_value(tok: Seq<u8>) -> Option<i32> {
    match signed_value(tok) {
        Some(v) => if i32::MIN <= v <= i32::MAX {
            Some(v as i32)
        } else {
            None
        },
        None => None,
    }
}

/// A run of digits denotes at least what any of its beginnings denotes.
pub proof fn lemma_digits_monotone(s: Seq<u8>, k: int)
    requires
        all_digits(s),
        0 <= k <= s.len(),
    ensures
        0 <= digits_value(s.take(k)) <= digits_value(s),
    decreases s.len(),
{
    if k == s.len() {
        assert(s.take(k) =~= s);
        if s.len() > 0 {
            lemma_digits_monotone(s.drop_last(), k - 1);
            assert(s.drop_last().take(k - 1) =~= s.drop_last());
        }
    } else {
        lemma_digits_monotone(s.drop_last(), k);
        assert(s.drop_last().take(k) =~= s.take(k));
        lemma_digits_monotone(s.drop_last(), s.len() - 1);
        assert(s.drop_last().take(s.len() - 1) =~= s.drop_last());
    }
}

/// Reads the digits of `tok` from position `from` on. The result is their
/// value if there is at least one byte, all are digits and the value is at most `limit`.
fn parse_digits(tok: &[u8], from: usize, limit: u128) -> (r: Option<u128>)
    requires
        from <= tok@.len(),
        limit <= 0x1_0000_0000_0000_0000,
    ensures
        match r {
            Some(v) => from < tok@.len() && all_digits(tok@.skip(from as int)) && v == digits_value(
                tok@.skip(from as int),
            ) && v <= limit,
            None => !(from < tok@.len() && all_digits(tok@.skip(from as int)) && digits_value(
                tok@.skip(from as int),
            ) <= limit),
        },
{
    if from >= tok.len() {
        return None;
    }
    let ghost body = tok@.skip(from as int);
    let mut acc: u128 = 0;
    let mut i: usize = from;
    assert(body.take(0) =~= Seq::<u8>::empty());
    while i < tok.len()
        invariant
            from <= i <= tok.len(),
            body == tok@.skip(from as int),
            all_digits(body.take(i - from)),
            acc == digits_value(body.take(i - from)),
            acc <= limit,
            limit <= 0x1_0000_0000_0000_0000,
        decreases tok.len() - i,
    {
        let c = tok[i];
        let ghost next = body.take(i - from + 1);
        assert(next.drop_last() =~= body.take(i - from));
        assert(next.last() == c);
        if c < 48 || c > 57 {
            assert(!is_digit(body[i - from]));
            return None;
        }
        let digit: u128 = (c - 48) as u128;
        let value: u128 = acc * 10 + digit;
        if value > limit {
            proof {
                if all_digits(body) {
                    lemma_digits_monotone(body, i - from + 1);
                }
            }
            return None;
        }
        assert forall|j: int| 0 <= j < next.len() implies is_digit(#[trigger] next[j]) by {
            if j < next.len() - 1 {
                assert(next[j] == body.take(i - from)[j]);
            }
        }
        acc = value;
        i += 1;
    }
    assert(body.take(body.len() as int) =~= body);
    Some(acc)
}

/// Reads a position: an unsigned decimal numeral that fits in `usize`.
pub fn parse_index(tok: &[u8]) -> (r: Option<usize>)
    ensures
        r == index_value(tok@),
{
    let from: usize = if tok.len() > 0 && tok[0] == 43 {
        1
    } else {
        0
    };
    proof {
        if from == 0 {
            assert(tok@.skip(0) =~= tok@);
        }
    }
    match parse_digits(tok, from, usize::MAX as u128) {
        Some(v) => Some(v as usize),
        None => None,
    }
}

/// Reads a literal: a signed decimal numeral that fits in 32 bits.
pub fn parse_literal(tok: &[u8]) -> (r: Option<i32>)
    ensures
        r == literal_value(tok@),
{
    if tok.len() > 0 && tok[0] == 45 {
        match parse_digits(tok, 1, 0x8000_0000) {
            Some(v) => Some((-(v as i64)) as i32),
            None => None,
        }
    } else {
        let from: usize = if tok.len() > 0 && tok[0] == 43 {
            1
        } else {
            0
        };
        proof {
            if from == 0 {
                assert(tok@.skip(0) =~= tok@);
            }
        }
        match parse_digits(tok, from, 0x7fff_ffff) {
            Some(v) => Some(v as i32),
            None => None,
        }
    }
}

/// The characters of an ASCII text.
pub open spec fn ascii(bytes: Seq<u8>) -> Seq<char> {
    Seq::new(bytes.len(), |i: int| bytes[i] as char)
}

/// The decimal numeral of a natural number, without leading zeros.
pub open spec fn decimal(n: nat) -> Seq<u8>
    decreases n,
{
    if n < 10 {
        seq![(48 + n) as u8]
    } else {
        decimal(n / 10).push((48 + n % 10) as u8)
    }
}

/// The decimal numeral of an integer, with a minus sign if it is negative.
pub open spec fn signed_decimal(v: int) -> Seq<u8> {
    if v < 0 {
        seq![45u8] + decimal((-v) as nat)
    } else {
        decimal(v as nat)
    }
}

/// Appends one decimal digit.
fn push_digit(out: &mut String, d: u8)
    requires
        d < 10,
    ensures
        final(out)@ == old(out)@ + ascii(seq![(48 + d) as u8]),
{
    let piece = if d == 0 {
        "0"
    } else if d == 1 {
        "1"
    } else if d == 2 {
        "2"
    } else if d == 3 {
        "3"
    } else if d == 4 {
        "4"
    } else if d == 5 {
        "5"
    } else if d == 6 {
        "6"
    } else if d == 7 {
        "7"
    } else if d == 8 {
        "8"
    } else {
        "9"
    };
    proof {
        reveal_strlit("0");
        reveal_strlit("1");
        reveal_strlit("2");
        reveal_strlit("3");
        reveal_strlit("4");
        reveal_strlit("5");
        reveal_strlit("6");
        reveal_strlit("7");
        reveal_strlit("8");
        reveal_strlit("9");
        assert(piece@ =~= ascii(seq![(48 + d) as u8]));
    }
    out.append(piece);
}

/// Appends the decimal numeral of a natural number.
pub fn push_unsigned(out: &mut String, n: u64)
    ensures
        final(out)@ == old(out)@ + ascii(decimal(n as nat)),
    decreases n,
{
    if n >= 10 {
        push_unsigned(out, n / 10);
        push_digit(out, (n % 10) as u8);
        assert(old(out)@ + ascii(decimal((n / 10) as nat)) + ascii(seq![(48 + n % 10) as u8])
            =~= old(out)@ + ascii(decimal(n as nat)));
    } else {
        push_digit(out, n as u8);
    }
}

/// Appends the decimal numeral of an integer.
pub fn push_signed(out: &mut String, v: i32)
    ensures
        final(out)@ == old(out)@ + ascii(signed_decimal(v as int)),
{
    if v < 0 {
        proof {
            reveal_strlit("-");
            assert("-"@ =~= ascii(seq![45u8]));
        }
        out.append("-");
        let size: u64 = (-(v + 1)) as u64 + 1;
        push_unsigned(out, size);
        assert(old(out)@ + ascii(seq![45u8]) + ascii(decimal(size as nat)) =~= old(out)@ + ascii(
            signed_decimal(v as int),
        ));
    } else {
        push_unsigned(out, v as u64);
    }
}

} // verus!
