use vstd::prelude::*;
use vstd::string::StrSliceExecFns;
use vstd::string::StringExecFns;
use crate::block::{Block, BlockID, ClientID, Content};
use crate::doc::{ClockEntry, VectorClock};
use crate::utils::{Peer, peer_like};

verus! {

/// The decimal digit character for a value below ten.
pub open spec fn digit_char(d: int) -> char {
    if d == 0 {
        '0'
    } else if d == 1 {
        '1'
    } else if d == 2 {
        '2'
    } else if d == 3 {
        '3'
    } else if d == 4 {
        '4'
    } else if d == 5 {
        '5'
    } else if d == 6 {
        '6'
    } else if d == 7 {
        '7'
    } else if d == 8 {
        '8'
    } else {
        '9'
    }
}

pub open spec fn is_digit(c: char) -> bool {
    c == '0' || c == '1' || c == '2' || c == '3' || c == '4' || c == '5' || c == '6' || c == '7'
        || c == '8' || c == '9'
}

pub open spec fn digit_val(c: char) -> int {
    if c == '0' {
        0
    } else if c == '1' {
        1
    } else if c == '2' {
        2
    } else if c == '3' {
        3
    } else if c == '4' {
        4
    } else if c == '5' {
        5
    } else if c == '6' {
        6
    } else if c == '7' {
        7
    } else if c == '8' {
        8
    } else {
        9
    }
}

/// Canonical decimal form of a 32-bit value, most significant digit first,
/// without leading zeros.
pub open spec fn spec_emit_u32(n: u32) -> Seq<char>
    decreases n,
{
    if n < 10 {
        seq![digit_char(n as int)]
    } else {
        spec_emit_u32((n / 10) as u32) + seq![digit_char((n % 10) as int)]
    }
}

/// The checked decimal value of a digit string: `None` above `u32::MAX`.
pub open spec fn chk_val(d: Seq<char>) -> Option<u32>
    decreases d.len(),
{
    if d.len() == 0 {
        Some(0u32)
    } else {
        match chk_val(d.drop_last()) {
            Some(v) => {
                if (v as int) * 10 + digit_val(d.last()) > u32::MAX {
                    None
                } else {
                    Some(((v as int) * 10 + digit_val(d.last())) as u32)
                }
            },
            None => None,
        }
    }
}

/// The canonical decimal form is non-empty, all digits, and starts with a
/// zero only for the value zero.
pub proof fn lemma_emit_u32_digits(n: u32)
    ensures
        spec_emit_u32(n).len() >= 1,
        forall|i: int| 0 <= i < spec_emit_u32(n).len() ==> is_digit(#[trigger] spec_emit_u32(n)[i]),
        (spec_emit_u32(n)[0] == '0') <==> n == 0,
    decreases n,
{
    if n < 10 {
        assert(spec_emit_u32(n) =~= seq![digit_char(n as int)]);
    } else {
        lemma_emit_u32_digits((n / 10) as u32);
        let a = spec_emit_u32((n / 10) as u32);
        let e = spec_emit_u32(n);
        assert(e == a + seq![digit_char((n % 10) as int)]);
        assert(e[0] == a[0]);
        assert(n / 10 >= 1);
        assert forall|i: int| 0 <= i < e.len() implies is_digit(#[trigger] e[i]) by {
            if i < a.len() {
                assert(e[i] == a[i]);
            } else {
                assert(e[i] == digit_char((n % 10) as int));
            }
        }
    }
}

/// Reading back the canonical decimal form gives the value it encodes.
pub proof fn lemma_chk_emit(n: u32)
    ensures
        chk_val(spec_emit_u32(n)) == Some(n),
    decreases n,
{
    if n < 10 {
        let e = spec_emit_u32(n);
        assert(e =~= seq![digit_char(n as int)]);
        assert(e.drop_last() =~= Seq::<char>::empty());
        assert(chk_val(e.drop_last()) == Some(0u32));
        assert(e.last() == digit_char(n as int));
        assert(digit_val(digit_char(n as int)) == n as int);
        assert(chk_val(e) == Some(n));
    } else {
        lemma_chk_emit((n / 10) as u32);
        let a = spec_emit_u32((n / 10) as u32);
        let e = spec_emit_u32(n);
        assert(e == a + seq![digit_char((n % 10) as int)]);
        assert(e.drop_last() =~= a);
        assert(chk_val(e.drop_last()) == Some((n / 10) as u32));
        assert(e.last() == digit_char((n % 10) as int));
        assert(digit_val(digit_char((n % 10) as int)) == (n % 10) as int);
        assert((n / 10) * 10 + n % 10 == n);
        assert(((n / 10) as int) * 10 + (n % 10) as int <= u32::MAX);
        assert(chk_val(e) == Some(n));
    }
}

/// A digit string with a non-zero leading digit encodes a positive value.
pub proof fn lemma_chk_positive(d: Seq<char>, v: u32)
    requires
        d.len() >= 1,
        forall|i: int| 0 <= i < d.len() ==> is_digit(#[trigger] d[i]),
        d[0] != '0',
        chk_val(d) == Some(v),
    ensures
        v >= 1,
    decreases d.len(),
{
    if d.len() == 1 {
        assert(d.drop_last() =~= Seq::<char>::empty());
        assert(d.last() == d[0]);
        assert(digit_val(d[0]) >= 1);
    } else {
        let d2 = d.drop_last();
        assert(d2[0] == d[0]);
        assert(forall|i: int| 0 <= i < d2.len() ==> is_digit(#[trigger] d2[i]));
        let m = chk_val(d2);
        assert(m is Some);
        lemma_chk_positive(d2, m->0);
    }
}

/// A non-empty all-digit string in canonical form (no leading zero unless it
/// is exactly "0") is the canonical decimal form of its value.
pub proof fn lemma_canonical_digits(d: Seq<char>, n: u32)
    requires
        d.len() >= 1,
        forall|i: int| 0 <= i < d.len() ==> is_digit(#[trigger] d[i]),
        d.len() >= 2 ==> d[0] != '0',
        chk_val(d) == Some(n),
    ensures
        d == spec_emit_u32(n),
    decreases d.len(),
{
    if d.len() == 1 {
        assert(d.drop_last() =~= Seq::<char>::empty());
        assert(chk_val(d.drop_last()) == Some(0u32));
        assert(d.last() == d[0]);
        assert(n as int == digit_val(d[0]));
        assert(n < 10);
        assert(digit_char(digit_val(d[0])) == d[0]);
        assert(spec_emit_u32(n) =~= seq![digit_char(n as int)]);
        assert(d =~= spec_emit_u32(n));
    } else {
        let d2 = d.drop_last();
        assert(d2[0] == d[0]);
        assert(forall|i: int| 0 <= i < d2.len() ==> is_digit(#[trigger] d2[i]));
        let m = chk_val(d2)->0;
        assert(chk_val(d2) == Some(m));
        lemma_chk_positive(d2, m);
        let dv = digit_val(d.last());
        assert(n as int == (m as int) * 10 + dv);
        assert(n >= 10) by {
            assert(m >= 1);
            assert((m as int) * 10 >= 10) by (nonlinear_arith)
                requires
                    m >= 1,
            ;
        }
        assert(n / 10 == m as int && n % 10 == dv) by (nonlinear_arith)
            requires
                n as int == (m as int) * 10 + dv,
                0 <= dv < 10,
                m >= 0,
        ;
        lemma_canonical_digits(d2, m);
        assert(spec_emit_u32(n) == spec_emit_u32((n / 10) as u32) + seq![digit_char(
            (n % 10) as int,
        )]);
        assert((n / 10) as u32 == m);
        assert(digit_char((n % 10) as int) == d.last());
        assert(d =~= d2 + seq![d.last()]);
        assert(d =~= spec_emit_u32(n));
    }
}

/// Exact test for a decimal digit character.
pub fn is_digit_c(c: char) -> (r: bool)
    ensures
        r == is_digit(c),
{
    c == '0' || c == '1' || c == '2' || c == '3' || c == '4' || c == '5' || c == '6' || c == '7'
        || c == '8' || c == '9'
}

/// The value of a decimal digit character.
pub fn digit_value(c: char) -> (r: u32)
    requires
        is_digit(c),
    ensures
        r as int == digit_val(c),
{
    if c == '0' {
        0
    } else if c == '1' {
        1
    } else if c == '2' {
        2
    } else if c == '3' {
        3
    } else if c == '4' {
        4
    } else if c == '5' {
        5
    } else if c == '6' {
        6
    } else if c == '7' {
        7
    } else if c == '8' {
        8
    } else {
        9
    }
}

/// Parses a canonical decimal `u32` at position `i`: consumes a maximal
/// digit run, rejects leading zeros and overflow. Deterministic on canonical
/// input: wherever a canonical emission sits at `i` with no digit following,
/// the parser returns exactly that value and stops exactly behind it.
pub fn parse_u32_at(s: &Vec<char>, i: usize) -> (r: Option<(u32, usize)>)
    ensures
        forall|v: u32, j: usize|
            #![trigger spec_emit_u32(v), s@.subrange(i as int, j as int)]
            (i <= j <= s@.len() && s@.subrange(i as int, j as int) == spec_emit_u32(v) && (j
                == s@.len() || !is_digit(s@[j as int]))) ==> r == Some((v, j)),
        match r {
            Some((v, j)) => i < j <= s@.len() && s@.subrange(i as int, j as int) == spec_emit_u32(
                v,
            ) && (j == s@.len() || !is_digit(s@[j as int])),
            None => true,
        },
{
    let n = s.len();
    if i >= n || !is_digit_c(s[i]) {
        proof {
            assert forall|v: u32, j: usize|
                (i <= j <= s@.len() && s@.subrange(i as int, j as int) == spec_emit_u32(v) && (j
                    == s@.len() || !is_digit(s@[j as int]))) implies false by {
                lemma_emit_u32_digits(v);
                assert(spec_emit_u32(v).len() >= 1);
                assert(j > i);
                assert(s@[i as int] == spec_emit_u32(v)[0]);
                assert(is_digit(s@[i as int]));
            }
        }
        return None;
    }
    if s[i] == '0' {
        if i + 1 < n && is_digit_c(s[i + 1]) {
            proof {
                assert forall|v: u32, j: usize|
                    (i <= j <= s@.len() && s@.subrange(i as int, j as int) == spec_emit_u32(v) && (
                    j == s@.len() || !is_digit(s@[j as int]))) implies false by {
                    lemma_emit_u32_digits(v);
                    assert(s@[i as int] == spec_emit_u32(v)[0]);
                    assert(v == 0);
                    assert(spec_emit_u32(0u32) =~= seq!['0']);
                    assert(j == i + 1);
                    assert(is_digit(s@[j as int]));
                }
            }
            return None;
        }
        proof {
            assert(spec_emit_u32(0u32) =~= seq!['0']);
            assert(s@.subrange(i as int, i + 1) =~= seq!['0']);
            assert forall|v: u32, j: usize|
                (i <= j <= s@.len() && s@.subrange(i as int, j as int) == spec_emit_u32(v) && (j
                    == s@.len() || !is_digit(s@[j as int]))) implies Some((0u32, (i + 1) as usize))
                == Some((v, j)) by {
                lemma_emit_u32_digits(v);
                assert(s@[i as int] == spec_emit_u32(v)[0]);
                assert(v == 0);
                assert(spec_emit_u32(0u32) =~= seq!['0']);
                assert(j == i + 1);
            }
        }
        return Some((0, i + 1));
    }
    let mut j = i;
    let mut val: u32 = 0;
    let mut over = false;
    while j < n && is_digit_c(s[j])
        invariant
            i <= j <= n,
            n == s@.len(),
            i < n,
            is_digit(s@[i as int]),
            s@[i as int] != '0',
            forall|t: int| i <= t < j ==> is_digit(#[trigger] s@[t]),
            chk_val(s@.subrange(i as int, j as int)) == (if over {
                Option::<u32>::None
            } else {
                Option::<u32>::Some(val)
            }),
        decreases n - j,
    {
        let ghost pre = s@.subrange(i as int, j as int);
        proof {
            assert(s@.subrange(i as int, j + 1).drop_last() =~= pre);
            assert(s@.subrange(i as int, j + 1).last() == s@[j as int]);
        }
        let d = digit_value(s[j]);
        if !over {
            if (val as u64) * 10 + (d as u64) > (u32::MAX as u64) {
                over = true;
            } else {
                val = val * 10 + d;
            }
        }
        j = j + 1;
    }
    proof {
        assert(j == n || !is_digit(s@[j as int]));
        assert(j > i);
    }
    let ghost region = s@.subrange(i as int, j as int);
    if over {
        proof {
            assert forall|v: u32, jj: usize|
                (i <= jj <= s@.len() && s@.subrange(i as int, jj as int) == spec_emit_u32(v) && (jj
                    == s@.len() || !is_digit(s@[jj as int]))) implies false by {
                lemma_emit_u32_digits(v);
                if (jj as int) < j as int {
                    assert(is_digit(s@[jj as int]));
                } else if (jj as int) > j as int {
                    assert(spec_emit_u32(v)[j - i] == s@[j as int]);
                    assert(is_digit(s@[j as int]));
                } else {
                    lemma_chk_emit(v);
                    assert(chk_val(region) == Some(v));
                }
            }
        }
        return None;
    }
    proof {
        assert(chk_val(region) == Some(val));
        lemma_canonical_digits(region, val);
        assert(region == spec_emit_u32(val));
        assert forall|v: u32, jj: usize|
            (i <= jj <= s@.len() && s@.subrange(i as int, jj as int) == spec_emit_u32(v) && (jj
                == s@.len() || !is_digit(s@[jj as int]))) implies Some((val, j)) == Some(
            (v, jj),
        ) by {
            lemma_emit_u32_digits(v);
            if (jj as int) < j as int {
                assert(is_digit(s@[jj as int]));
                assert(false);
            } else if (jj as int) > j as int {
                assert(spec_emit_u32(v)[j - i] == s@[j as int]);
                assert(is_digit(s@[j as int]));
                assert(false);
            } else {
                lemma_chk_emit(v);
                assert(chk_val(region) == Some(v));
            }
        }
    }
    Some((val, j))
}


/// Whether a character is a lower-case hexadecimal digit.
pub open spec fn is_hex(c: char) -> bool {
    is_digit(c) || c == 'a' || c == 'b' || c == 'c' || c == 'd' || c == 'e' || c == 'f'
}

/// Exact test for a lower-case hexadecimal digit character.
pub fn is_hex_c(c: char) -> (r: bool)
    ensures
        r == is_hex(c),
{
    is_digit_c(c) || c == 'a' || c == 'b' || c == 'c' || c == 'd' || c == 'e' || c == 'f'
}

/// The value of a lower-case hexadecimal digit character.
pub fn hex_value(c: char) -> (r: u32)
    requires
        is_hex(c),
    ensures
        r < 16,
        hex_char(r as int) == c,
{
    if c == 'a' {
        10
    } else if c == 'b' {
        11
    } else if c == 'c' {
        12
    } else if c == 'd' {
        13
    } else if c == 'e' {
        14
    } else if c == 'f' {
        15
    } else {
        digit_value(c)
    }
}

/// Hexadecimal digit characters are distinct.
pub proof fn hex_char_inverts(d: int, e: int)
    requires
        0 <= d < 16,
        0 <= e < 16,
        hex_char(d) == hex_char(e),
    ensures
        d == e,
{
}

/// Characters with the same code point are the same character.
pub proof fn char_codepoint_injective(a: char, b: char)
    requires
        a as u32 == b as u32,
    ensures
        a == b,
{
}

/// Decomposes a canonical escaped stream at its first piece: when the stream
/// is empty the head is the closing quote; otherwise the head piece is the
/// first character's escape, and the rest is again a canonical stream.
pub proof fn canonical_head_facts(s: Seq<char>, i: int, j: int, v: Seq<char>)
    requires
        0 <= i <= j <= s.len(),
        s.subrange(i, j) == escape(v) + seq!['"'],
    ensures
        v.len() == 0 ==> j == i + 1 && s[i] == '"',
        v.len() > 0 ==> ({
            let piece = escape_char(v[0]);
            &&& escape(v) == piece + escape(v.skip(1))
            &&& 1 <= piece.len()
            &&& i + piece.len() < j
            &&& s.subrange(i, i + piece.len() as int) == piece
            &&& s.subrange(i + piece.len() as int, j) == escape(v.skip(1)) + seq!['"']
            &&& s[i] == piece[0]
            &&& (piece.len() > 1 ==> s[i + 1] == piece[1])
            &&& s[i] != '"'
        }),
{
    if v.len() == 0 {
        assert(escape(v) == Seq::<char>::empty());
        assert(s.subrange(i, j) =~= seq!['"']);
        assert(j - i == 1);
        assert(s[i] == s.subrange(i, j)[0]);
    } else {
        lemma_escape_cons(v);
        let piece = escape_char(v[0]);
        assert(piece.len() >= 1);
        assert((escape(v) + seq!['"']).len() == j - i);
        assert(escape(v).len() == piece.len() + escape(v.skip(1)).len());
        assert(i + piece.len() < j + 1);
        assert(i + piece.len() <= j);
        assert(s.subrange(i, i + piece.len() as int) =~= piece) by {
            assert forall|t: int| 0 <= t < piece.len() implies s.subrange(
                i,
                i + piece.len() as int,
            )[t] == piece[t] by {
                assert(s.subrange(i, j)[t] == (escape(v) + seq!['"'])[t]);
            }
        }
        assert(escape(v) + seq!['"'] =~= piece + (escape(v.skip(1)) + seq!['"']));
        assert(s.subrange(i + piece.len() as int, j) =~= escape(v.skip(1)) + seq!['"']) by {
            let rest = escape(v.skip(1)) + seq!['"'];
            assert forall|t: int| 0 <= t < j - i - piece.len() implies s.subrange(
                i + piece.len() as int,
                j,
            )[t] == (escape(v.skip(1)) + seq!['"'])[t] by {
                assert(s.subrange(i + piece.len() as int, j)[t] == s[i + piece.len() + t]);
                assert(s.subrange(i, j)[t + piece.len()] == s[i + piece.len() + t]);
                assert(s.subrange(i, j)[t + piece.len()] == (escape(v) + seq!['"'])[t
                    + piece.len()]);
                assert((escape(v) + seq!['"'])[t + piece.len()] == (piece + rest)[t
                    + piece.len()]);
                assert((piece + rest)[t + piece.len()] == rest[t]);
            }
        }
        assert(s[i] == piece[0]) by {
            assert(s.subrange(i, j)[0] == (escape(v) + seq!['"'])[0]);
        }
        if piece.len() > 1 {
            assert(s[i + 1] == piece[1]) by {
                assert(s.subrange(i, j)[1] == (escape(v) + seq!['"'])[1]);
            }
        }
        assert(i + piece.len() < j);
        assert(piece[0] != '"');
    }
}

/// The hexadecimal digit character for a value below sixteen (lower case).
pub open spec fn hex_char(d: int) -> char {
    if d < 10 {
        digit_char(d)
    } else if d == 10 {
        'a'
    } else if d == 11 {
        'b'
    } else if d == 12 {
        'c'
    } else if d == 13 {
        'd'
    } else if d == 14 {
        'e'
    } else {
        'f'
    }
}

/// How one character appears inside a quoted wire string: quotes and
/// backslashes get a two-character escape, control characters a six-character
/// unicode escape, and everything else stands for itself.
pub open spec fn escape_char(c: char) -> Seq<char> {
    if c == '"' {
        seq!['\\', '"']
    } else if c == '\\' {
        seq!['\\', '\\']
    } else if (c as u32) < 0x20 {
        seq!['\\', 'u', '0', '0', hex_char(((c as u32) / 16) as int), hex_char(
            ((c as u32) % 16) as int,
        )]
    } else {
        seq![c]
    }
}

/// The escaped form of a whole character sequence.
pub open spec fn escape(s: Seq<char>) -> Seq<char>
    decreases s.len(),
{
    if s.len() == 0 {
        Seq::<char>::empty()
    } else {
        escape_char(s[0]) + escape(s.skip(1))
    }
}

/// The wire form of a string: the escaped characters between quotes.
pub open spec fn spec_emit_string(s: Seq<char>) -> Seq<char> {
    seq!['"'] + escape(s) + seq!['"']
}

/// Escaping distributes over appending one character at the end.
pub proof fn lemma_escape_snoc(s: Seq<char>, c: char)
    ensures
        escape(s.push(c)) == escape(s) + escape_char(c),
    decreases s.len(),
{
    if s.len() == 0 {
        assert(s.push(c) =~= seq![c]);
        assert(seq![c].skip(1) =~= Seq::<char>::empty());
        assert(seq![c][0] == c);
        assert(escape(seq![c]) == escape_char(c) + escape(Seq::<char>::empty()));
        assert(escape_char(c) + Seq::<char>::empty() =~= escape_char(c));
        assert(escape(s) + escape_char(c) =~= escape_char(c));
    } else {
        assert(s.push(c).skip(1) =~= s.skip(1).push(c));
        assert(s.push(c)[0] == s[0]);
        lemma_escape_snoc(s.skip(1), c);
        assert(escape(s.push(c)) =~= escape(s) + escape_char(c));
    }
}

/// Escaping splits at the first character.
pub proof fn lemma_escape_cons(v: Seq<char>)
    requires
        v.len() > 0,
    ensures
        escape(v) == escape_char(v[0]) + escape(v.skip(1)),
{
}

/// Relies on std's `String::push`: appends exactly one character.
#[verifier::external_body]
fn push_char(s: &mut String, c: char)
    ensures
        final(s)@ == old(s)@.push(c),
{
    s.push(c);
}

/// The hexadecimal digit character for a value below sixteen.
fn hex_c(d: u32) -> (r: char)
    requires
        d < 16,
    ensures
        r == hex_char(d as int),
{
    if d == 0 {
        '0'
    } else if d == 1 {
        '1'
    } else if d == 2 {
        '2'
    } else if d == 3 {
        '3'
    } else if d == 4 {
        '4'
    } else if d == 5 {
        '5'
    } else if d == 6 {
        '6'
    } else if d == 7 {
        '7'
    } else if d == 8 {
        '8'
    } else if d == 9 {
        '9'
    } else if d == 10 {
        'a'
    } else if d == 11 {
        'b'
    } else if d == 12 {
        'c'
    } else if d == 13 {
        'd'
    } else if d == 14 {
        'e'
    } else {
        'f'
    }
}

/// Appends the wire form of a string.
pub fn emit_string_into(out: &mut String, s: &str)
    ensures
        final(out)@ == old(out)@ + spec_emit_string(s@),
{
    push_char(out, '"');
    let n = s.unicode_len();
    let mut i: usize = 0;
    proof {
        assert(s@.take(0) =~= Seq::<char>::empty());
        assert(out@ =~= old(out)@ + seq!['"'] + escape(s@.take(0)));
    }
    while i < n
        invariant
            n == s@.len(),
            i <= n,
            out@ == old(out)@ + seq!['"'] + escape(s@.take(i as int)),
        decreases n - i,
    {
        let c = s.get_char(i);
        proof {
            assert(s@.take(i + 1) =~= s@.take(i as int).push(c));
            lemma_escape_snoc(s@.take(i as int), c);
        }
        if c == '"' {
            push_char(out, '\\');
            push_char(out, '"');
        } else if c == '\\' {
            push_char(out, '\\');
            push_char(out, '\\');
        } else if (c as u32) < 0x20 {
            let cv = c as u32;
            push_char(out, '\\');
            push_char(out, 'u');
            push_char(out, '0');
            push_char(out, '0');
            push_char(out, hex_c(cv / 16));
            push_char(out, hex_c(cv % 16));
        } else {
            push_char(out, c);
        }
        proof {
            assert(out@ =~= old(out)@ + seq!['"'] + escape(s@.take(i + 1)));
        }
        i = i + 1;
    }
    push_char(out, '"');
    proof {
        assert(s@.take(n as int) =~= s@);
        assert(out@ =~= old(out)@ + spec_emit_string(s@));
    }
}

/// Parses the body of a quoted wire string at `i` (just past the opening
/// quote), through its closing quote. Deterministic on canonical input:
/// wherever an escaped stream plus closing quote sits at `i`, the parser
/// returns exactly that stream and stops exactly behind the quote.
#[verifier::rlimit(100)]
pub fn parse_string_body(s: &Vec<char>, i: usize) -> (r: Option<(Vec<char>, usize)>)
    ensures
        forall|v: Seq<char>, j: usize|
            #![trigger escape(v), s@.subrange(i as int, j as int)]
            (i <= j <= s@.len() && s@.subrange(i as int, j as int) == escape(v) + seq!['"'])
                ==> (match r {
                Some((rv, rj)) => rv@ == v && rj == j,
                None => false,
            }),
        match r {
            Some((rv, rj)) => i <= rj <= s@.len() && s@.subrange(i as int, rj as int) == escape(
                rv@,
            ) + seq!['"'],
            None => true,
        },
    decreases s@.len() - i,
{
    let n = s.len();
    if i >= n {
        proof {
            assert forall|v: Seq<char>, j: usize|
                (i <= j <= s@.len() && s@.subrange(i as int, j as int) == escape(v) + seq!['"'])
                implies false by {
                assert((escape(v) + seq!['"']).len() >= 1);
            }
        }
        return None;
    }
    let c = s[i];
    if c == '"' {
        let rv: Vec<char> = Vec::new();
        proof {
            assert(escape(Seq::<char>::empty()) == Seq::<char>::empty());
            assert(s@.subrange(i as int, i + 1) =~= escape(rv@) + seq!['"']);
            assert forall|v: Seq<char>, j: usize|
                (i <= j <= s@.len() && s@.subrange(i as int, j as int) == escape(v) + seq!['"'])
                implies v =~= Seq::<char>::empty() && j == i + 1 by {
                canonical_head_facts(s@, i as int, j as int, v);
                if v.len() > 0 {
                    assert(s@[i as int] != '"');
                    assert(false);
                }
            }
        }
        return Some((rv, i + 1));
    }
    if c == '\\' {
        if i + 1 >= n {
            proof {
                assert forall|v: Seq<char>, j: usize|
                    (i <= j <= s@.len() && s@.subrange(i as int, j as int) == escape(v)
                        + seq!['"']) implies false by {
                    canonical_head_facts(s@, i as int, j as int, v);
                }
            }
            return None;
        }
        let e = s[i + 1];
        if e == '"' || e == '\\' {
            let c0 = e;
            match parse_string_body(s, i + 2) {
                Some((mut tail, j)) => {
                    proof {
                        lemma_escape_cons(seq![c0] + tail@);
                        assert((seq![c0] + tail@)[0] == c0);
                        assert((seq![c0] + tail@).skip(1) =~= tail@);
                        assert(escape_char(c0) =~= seq!['\\', c0]);
                        assert(s@.subrange(i as int, j as int) =~= escape_char(c0) + (escape(tail@)
                            + seq!['"']));
                        assert(s@.subrange(i as int, j as int) =~= escape(seq![c0] + tail@)
                            + seq!['"']);
                    }
                    tail.insert(0, c0);
                    proof {
                        assert(tail@ =~= seq![c0] + tail@.skip(1));
                    }
                    let ghost res: (Vec<char>, usize) = (tail, j);
                    proof {
                        assert forall|v: Seq<char>, jj: usize|
                            (i <= jj <= s@.len() && s@.subrange(i as int, jj as int) == escape(v)
                                + seq!['"']) implies res.0@ == v && res.1 == jj by {
                            canonical_head_facts(s@, i as int, jj as int, v);
                            assert(v[0] == c0);
                            assert(s@.subrange(i + 2, jj as int) =~= escape(v.skip(1))
                                + seq!['"']);
                        }
                    }
                    Some((tail, j))
                },
                None => {
                    proof {
                        assert forall|v: Seq<char>, jj: usize|
                            (i <= jj <= s@.len() && s@.subrange(i as int, jj as int) == escape(v)
                                + seq!['"']) implies false by {
                            canonical_head_facts(s@, i as int, jj as int, v);
                            assert(v[0] == c0);
                            assert(s@.subrange(i + 2, jj as int) =~= escape(v.skip(1))
                                + seq!['"']);
                        }
                    }
                    None
                },
            }
        } else if e == 'u' {
            if n - i < 6 {
                proof {
                    assert forall|v: Seq<char>, jj: usize|
                        (i <= jj <= s@.len() && s@.subrange(i as int, jj as int) == escape(v)
                            + seq!['"']) implies false by {
                        canonical_head_facts(s@, i as int, jj as int, v);
                    }
                }
                return None;
            }
            let h1 = s[i + 4];
            let h2 = s[i + 5];
            let ok = s[i + 2] == '0' && s[i + 3] == '0' && (h1 == '0' || h1 == '1') && is_hex_c(
                h2,
            );
            if !ok {
                proof {
                    assert forall|v: Seq<char>, jj: usize|
                        (i <= jj <= s@.len() && s@.subrange(i as int, jj as int) == escape(v)
                            + seq!['"']) implies false by {
                        canonical_head_facts(s@, i as int, jj as int, v);
                    }
                }
                return None;
            }
            let hv1: u32 = if h1 == '1' {
                1
            } else {
                0
            };
            let hv2: u32 = hex_value(h2);
            let cv: u32 = hv1 * 16 + hv2;
            let c0: char = (cv as u8) as char;
            proof {
                assert(cv < 0x20);
                assert(c0 as u32 == cv);
                assert(escape_char(c0) =~= seq!['\\', 'u', '0', '0', h1, h2]) by {
                    assert(hex_char(((c0 as u32) / 16) as int) == h1);
                    assert(hex_char(((c0 as u32) % 16) as int) == h2);
                }
            }
            match parse_string_body(s, i + 6) {
                Some((mut tail, j)) => {
                    proof {
                        lemma_escape_cons(seq![c0] + tail@);
                        assert((seq![c0] + tail@)[0] == c0);
                        assert((seq![c0] + tail@).skip(1) =~= tail@);
                        assert(s@.subrange(i as int, j as int) =~= escape_char(c0) + (escape(tail@)
                            + seq!['"']));
                        assert(s@.subrange(i as int, j as int) =~= escape(seq![c0] + tail@)
                            + seq!['"']);
                    }
                    tail.insert(0, c0);
                    proof {
                        assert(tail@ =~= seq![c0] + tail@.skip(1));
                    }
                    let ghost res: (Vec<char>, usize) = (tail, j);
                    proof {
                        assert forall|v: Seq<char>, jj: usize|
                            (i <= jj <= s@.len() && s@.subrange(i as int, jj as int) == escape(v)
                                + seq!['"']) implies res.0@ == v && res.1 == jj by {
                            canonical_head_facts(s@, i as int, jj as int, v);
                            assert(hex_char(((v[0] as u32) / 16) as int) == h1);
                            assert(hex_char(((v[0] as u32) % 16) as int) == h2);
                            assert((v[0] as u32) / 16 == hv1 && (v[0] as u32) % 16 == hv2) by {
                                hex_char_inverts(((v[0] as u32) / 16) as int, hv1 as int);
                                hex_char_inverts(((v[0] as u32) % 16) as int, hv2 as int);
                            }
                            assert(v[0] as u32 == cv);
                            assert(v[0] == c0) by {
                                char_codepoint_injective(v[0], c0);
                            }
                            assert(s@.subrange(i + 6, jj as int) =~= escape(v.skip(1))
                                + seq!['"']);
                        }
                    }
                    Some((tail, j))
                },
                None => {
                    proof {
                        assert forall|v: Seq<char>, jj: usize|
                            (i <= jj <= s@.len() && s@.subrange(i as int, jj as int) == escape(v)
                                + seq!['"']) implies false by {
                            canonical_head_facts(s@, i as int, jj as int, v);
                            assert(hex_char(((v[0] as u32) / 16) as int) == h1);
                            assert(hex_char(((v[0] as u32) % 16) as int) == h2);
                            assert((v[0] as u32) / 16 == hv1 && (v[0] as u32) % 16 == hv2) by {
                                hex_char_inverts(((v[0] as u32) / 16) as int, hv1 as int);
                                hex_char_inverts(((v[0] as u32) % 16) as int, hv2 as int);
                            }
                            assert(v[0] as u32 == cv);
                            assert(v[0] == c0) by {
                                char_codepoint_injective(v[0], c0);
                            }
                            assert(s@.subrange(i + 6, jj as int) =~= escape(v.skip(1))
                                + seq!['"']);
                        }
                    }
                    None
                },
            }
        } else {
            proof {
                assert forall|v: Seq<char>, jj: usize|
                    (i <= jj <= s@.len() && s@.subrange(i as int, jj as int) == escape(v)
                        + seq!['"']) implies false by {
                    canonical_head_facts(s@, i as int, jj as int, v);
                }
            }
            None
        }
    } else if (c as u32) < 0x20 {
        proof {
            assert forall|v: Seq<char>, jj: usize|
                (i <= jj <= s@.len() && s@.subrange(i as int, jj as int) == escape(v) + seq!['"'])
                implies false by {
                canonical_head_facts(s@, i as int, jj as int, v);
            }
        }
        None
    } else {
        let c0 = c;
        match parse_string_body(s, i + 1) {
            Some((mut tail, j)) => {
                proof {
                    lemma_escape_cons(seq![c0] + tail@);
                    assert((seq![c0] + tail@)[0] == c0);
                    assert((seq![c0] + tail@).skip(1) =~= tail@);
                    assert(escape_char(c0) =~= seq![c0]);
                    assert(s@.subrange(i as int, j as int) =~= escape_char(c0) + (escape(tail@)
                        + seq!['"']));
                    assert(s@.subrange(i as int, j as int) =~= escape(seq![c0] + tail@)
                        + seq!['"']);
                }
                tail.insert(0, c0);
                proof {
                    assert(tail@ =~= seq![c0] + tail@.skip(1));
                }
                let ghost res: (Vec<char>, usize) = (tail, j);
                proof {
                    assert forall|v: Seq<char>, jj: usize|
                        (i <= jj <= s@.len() && s@.subrange(i as int, jj as int) == escape(v)
                            + seq!['"']) implies res.0@ == v && res.1 == jj by {
                        canonical_head_facts(s@, i as int, jj as int, v);
                        assert(v[0] == c0);
                        assert(s@.subrange(i + 1, jj as int) =~= escape(v.skip(1)) + seq!['"']);
                    }
                }
                Some((tail, j))
            },
            None => {
                proof {
                    assert forall|v: Seq<char>, jj: usize|
                        (i <= jj <= s@.len() && s@.subrange(i as int, jj as int) == escape(v)
                            + seq!['"']) implies false by {
                        canonical_head_facts(s@, i as int, jj as int, v);
                        assert(v[0] == c0);
                        assert(s@.subrange(i + 1, jj as int) =~= escape(v.skip(1)) + seq!['"']);
                    }
                }
                None
            },
        }
    }
}

/// A decomposition of a consumed region: when a region is a concatenation,
/// each part occupies its own subrange.
pub proof fn lemma_subrange_split(s: Seq<char>, i: int, j: int, a: Seq<char>, b: Seq<char>)
    requires
        0 <= i <= j <= s.len(),
        s.subrange(i, j) == a + b,
    ensures
        i + a.len() <= j,
        s.subrange(i, i + a.len() as int) == a,
        s.subrange(i + a.len() as int, j) == b,
{
    assert((a + b).len() == j - i);
    assert(s.subrange(i, i + a.len() as int) =~= a) by {
        assert forall|t: int| 0 <= t < a.len() implies s.subrange(i, i + a.len() as int)[t]
            == a[t] by {
            assert(s.subrange(i, j)[t] == (a + b)[t]);
        }
    }
    assert(s.subrange(i + a.len() as int, j) =~= b) by {
        assert forall|t: int| 0 <= t < j - i - a.len() implies s.subrange(
            i + a.len() as int,
            j,
        )[t] == b[t] by {
            assert(s.subrange(i + a.len() as int, j)[t] == s[i + a.len() + t]);
            assert(s.subrange(i, j)[t + a.len()] == s[i + a.len() + t]);
            assert(s.subrange(i, j)[t + a.len()] == (a + b)[t + a.len()]);
            assert((a + b)[t + a.len()] == b[t]);
        }
    }
}

/// Matches an exact literal at position `i`: returns the position behind it,
/// or `None` exactly when the literal is not there.
pub fn expect_lit(s: &Vec<char>, i: usize, lit: &str) -> (r: Option<usize>)
    ensures
        match r {
            Some(j) => i <= j <= s@.len() && j - i == lit@.len() && s@.subrange(i as int, j as int)
                == lit@,
            None => !(i + lit@.len() <= s@.len() && s@.subrange(
                i as int,
                i + lit@.len() as int,
            ) == lit@),
        },
{
    let m = lit.unicode_len();
    let n = s.len();
    if i > n || m > n - i {
        return None;
    }
    let mut k: usize = 0;
    while k < m
        invariant
            m == lit@.len(),
            n == s@.len(),
            i + m <= n,
            k <= m,
            forall|t: int| 0 <= t < k ==> s@[i + t] == lit@[t],
        decreases m - k,
    {
        if s[i + k] != lit.get_char(k) {
            proof {
                assert(s@.subrange(i as int, i + m)[k as int] == s@[i + k]);
            }
            return None;
        }
        k = k + 1;
    }
    proof {
        assert(s@.subrange(i as int, i + m) =~= lit@);
    }
    Some(i + m)
}

/// The wire form of a boolean.
pub open spec fn spec_emit_bool(b: bool) -> Seq<char> {
    if b {
        "true"@
    } else {
        "false"@
    }
}

/// Parses a wire boolean; deterministic on canonical input.
pub fn parse_bool_at(s: &Vec<char>, i: usize) -> (r: Option<(bool, usize)>)
    ensures
        forall|b: bool, j: usize|
            #![trigger spec_emit_bool(b), s@.subrange(i as int, j as int)]
            (i <= j <= s@.len() && s@.subrange(i as int, j as int) == spec_emit_bool(b)) ==> r
                == Some((b, j)),
        match r {
            Some((b, j)) => i < j <= s@.len() && s@.subrange(i as int, j as int)
                == spec_emit_bool(b),
            None => true,
        },
{
    proof {
        reveal_strlit("true");
        reveal_strlit("false");
    }
    match expect_lit(s, i, "true") {
        Some(j) => {
            proof {
                assert forall|b: bool, jj: usize|
                    (i <= jj <= s@.len() && s@.subrange(i as int, jj as int) == spec_emit_bool(b))
                    implies Some((true, j)) == Some((b, jj)) by {
                    reveal_strlit("true");
                    reveal_strlit("false");
                    if !b {
                        assert(("false"@).len() == 5);
                        assert(jj - i == 5);
                        assert(s@.subrange(i as int, jj as int)[0] == 'f');
                        assert(s@[i as int] == 'f');
                        assert(("true"@).len() == 4);
                        assert(j - i == 4);
                        assert(s@.subrange(i as int, j as int)[0] == 't');
                        assert(s@[i as int] == 't');
                    }
                }
            }
            Some((true, j))
        },
        None => {
            match expect_lit(s, i, "false") {
                Some(j) => {
                    proof {
                        assert forall|b: bool, jj: usize|
                            (i <= jj <= s@.len() && s@.subrange(i as int, jj as int)
                                == spec_emit_bool(b)) implies Some((false, j)) == Some((b, jj)) by {
                            reveal_strlit("true");
                            reveal_strlit("false");
                            if b {
                                assert(s@.subrange(i as int, jj as int) == "true"@);
                                assert(jj == i + 4);
                                assert(s@.subrange(i as int, i + 4) =~= "true"@);
                            }
                        }
                    }
                    Some((false, j))
                },
                None => {
                    proof {
                        assert forall|b: bool, jj: usize|
                            (i <= jj <= s@.len() && s@.subrange(i as int, jj as int)
                                == spec_emit_bool(b)) implies false by {
                            reveal_strlit("true");
                            reveal_strlit("false");
                            if b {
                                assert(jj == i + 4);
                                assert(s@.subrange(i as int, i + 4) =~= "true"@);
                            } else {
                                assert(jj == i + 5);
                                assert(s@.subrange(i as int, i + 5) =~= "false"@);
                            }
                        }
                    }
                    None
                },
            }
        },
    }
}

/// The wire form of a block id.
pub open spec fn spec_emit_id(id: BlockID) -> Seq<char> {
    "{\"client\":"@ + (spec_emit_u32(id.client) + (",\"clock\":"@ + (spec_emit_u32(id.clock)
        + "}"@)))
}

/// Parses a wire block id; deterministic on canonical input.
#[verifier::rlimit(50)]
pub fn parse_id_at(s: &Vec<char>, i: usize) -> (r: Option<(BlockID, usize)>)
    ensures
        forall|id: BlockID, j: usize|
            #![trigger spec_emit_id(id), s@.subrange(i as int, j as int)]
            (i <= j <= s@.len() && s@.subrange(i as int, j as int) == spec_emit_id(id)) ==> r
                == Some((id, j)),
        match r {
            Some((id, j)) => i < j <= s@.len() && s@.subrange(i as int, j as int) == spec_emit_id(
                id,
            ),
            None => true,
        },
{
    proof {
        reveal_strlit("{\"client\":");
        reveal_strlit(",\"clock\":");
        reveal_strlit("}");
    }
    let j1 = match expect_lit(s, i, "{\"client\":") {
        Some(j1) => j1,
        None => {
            proof {
                assert forall|id: BlockID, j: usize|
                    (i <= j <= s@.len() && s@.subrange(i as int, j as int) == spec_emit_id(id))
                    implies false by {
                    lemma_id_decomp(s@, i as int, j as int, id);
                }
            }
            return None;
        },
    };
    let (client, j2) = match parse_u32_at(s, j1) {
        Some(p) => p,
        None => {
            proof {
                assert forall|id: BlockID, j: usize|
                    (i <= j <= s@.len() && s@.subrange(i as int, j as int) == spec_emit_id(id))
                    implies false by {
                    lemma_id_decomp(s@, i as int, j as int, id);
                }
            }
            return None;
        },
    };
    let j3 = match expect_lit(s, j2, ",\"clock\":") {
        Some(j3) => j3,
        None => {
            proof {
                assert forall|id: BlockID, j: usize|
                    (i <= j <= s@.len() && s@.subrange(i as int, j as int) == spec_emit_id(id))
                    implies false by {
                    lemma_id_decomp(s@, i as int, j as int, id);
                }
            }
            return None;
        },
    };
    let (clock, j4) = match parse_u32_at(s, j3) {
        Some(p) => p,
        None => {
            proof {
                assert forall|id: BlockID, j: usize|
                    (i <= j <= s@.len() && s@.subrange(i as int, j as int) == spec_emit_id(id))
                    implies false by {
                    lemma_id_decomp(s@, i as int, j as int, id);
                }
            }
            return None;
        },
    };
    let j5 = match expect_lit(s, j4, "}") {
        Some(j5) => j5,
        None => {
            proof {
                assert forall|id: BlockID, j: usize|
                    (i <= j <= s@.len() && s@.subrange(i as int, j as int) == spec_emit_id(id))
                    implies false by {
                    lemma_id_decomp(s@, i as int, j as int, id);
                }
            }
            return None;
        },
    };
    let res = BlockID { client, clock };
    proof {
        assert(s@.subrange(i as int, j5 as int) =~= spec_emit_id(res)) by {
            assert(s@.subrange(i as int, j5 as int) =~= s@.subrange(i as int, j1 as int)
                + s@.subrange(j1 as int, j2 as int) + s@.subrange(j2 as int, j3 as int)
                + s@.subrange(j3 as int, j4 as int) + s@.subrange(j4 as int, j5 as int));
            assert(s@.subrange(i as int, j1 as int) + s@.subrange(j1 as int, j2 as int)
                + s@.subrange(j2 as int, j3 as int) + s@.subrange(j3 as int, j4 as int)
                + s@.subrange(j4 as int, j5 as int) =~= spec_emit_id(res));
        }
        assert forall|id: BlockID, j: usize|
            (i <= j <= s@.len() && s@.subrange(i as int, j as int) == spec_emit_id(id)) implies Some(
            (res, j5),
        ) == Some((id, j)) by {
            lemma_id_decomp(s@, i as int, j as int, id);
        }
    }
    Some((res, j5))
}

/// Splits a canonical block-id emission into its five pieces and states the
/// boundary facts the sub-parsers need.
pub proof fn lemma_id_decomp(s: Seq<char>, i: int, j: int, id: BlockID)
    requires
        0 <= i <= j <= s.len(),
        s.subrange(i, j) == spec_emit_id(id),
    ensures
        ({
            let l1 = "{\"client\":"@.len() as int;
            let n1 = spec_emit_u32(id.client).len() as int;
            let l2 = ",\"clock\":"@.len() as int;
            let n2 = spec_emit_u32(id.clock).len() as int;
            &&& i + l1 + n1 + l2 + n2 + 1 == j
            &&& s.subrange(i, i + l1) == "{\"client\":"@
            &&& s.subrange(i + l1, i + l1 + n1) == spec_emit_u32(id.client)
            &&& !is_digit(s[i + l1 + n1])
            &&& s.subrange(i + l1 + n1, i + l1 + n1 + l2) == ",\"clock\":"@
            &&& s.subrange(i + l1 + n1 + l2, i + l1 + n1 + l2 + n2) == spec_emit_u32(id.clock)
            &&& !is_digit(s[i + l1 + n1 + l2 + n2])
            &&& s.subrange(i + l1 + n1 + l2 + n2, j) == "}"@
        }),
{
    reveal_strlit("{\"client\":");
    reveal_strlit(",\"clock\":");
    reveal_strlit("}");
    let l1 = "{\"client\":"@.len() as int;
    let n1 = spec_emit_u32(id.client).len() as int;
    let l2 = ",\"clock\":"@.len() as int;
    let n2 = spec_emit_u32(id.clock).len() as int;
    lemma_subrange_split(s, i, j, "{\"client\":"@, spec_emit_u32(id.client) + (",\"clock\":"@
        + (spec_emit_u32(id.clock) + "}"@)));
    lemma_subrange_split(s, i + l1, j, spec_emit_u32(id.client), ",\"clock\":"@
        + (spec_emit_u32(id.clock) + "}"@));
    lemma_subrange_split(s, i + l1 + n1, j, ",\"clock\":"@, spec_emit_u32(id.clock) + "}"@);
    lemma_subrange_split(s, i + l1 + n1 + l2, j, spec_emit_u32(id.clock), "}"@);
    assert(s[i + l1 + n1] == ',') by {
        assert(s.subrange(i + l1 + n1, i + l1 + n1 + l2)[0] == ',');
    }
    assert(s[i + l1 + n1 + l2 + n2] == '}') by {
        assert(s.subrange(i + l1 + n1 + l2 + n2, j)[0] == '}');
    }
}

/// The wire form of an optional block id: an explicit `null` for the
/// document boundary.
pub open spec fn spec_emit_opt_id(o: Option<BlockID>) -> Seq<char> {
    match o {
        None => "null"@,
        Some(id) => spec_emit_id(id),
    }
}

/// Parses an optional wire block id; deterministic on canonical input.
pub fn parse_opt_id_at(s: &Vec<char>, i: usize) -> (r: Option<(Option<BlockID>, usize)>)
    ensures
        forall|o: Option<BlockID>, j: usize|
            #![trigger spec_emit_opt_id(o), s@.subrange(i as int, j as int)]
            (i <= j <= s@.len() && s@.subrange(i as int, j as int) == spec_emit_opt_id(o)) ==> r
                == Some((o, j)),
        match r {
            Some((o, j)) => i < j <= s@.len() && s@.subrange(i as int, j as int)
                == spec_emit_opt_id(o),
            None => true,
        },
{
    proof {
        reveal_strlit("null");
        reveal_strlit("{\"client\":");
    }
    match expect_lit(s, i, "null") {
        Some(j) => {
            proof {
                assert forall|o: Option<BlockID>, jj: usize|
                    (i <= jj <= s@.len() && s@.subrange(i as int, jj as int) == spec_emit_opt_id(
                        o,
                    )) implies Some((Option::<BlockID>::None, j)) == Some((o, jj)) by {
                    if o is Some {
                        lemma_id_decomp(s@, i as int, jj as int, o->0);
                        assert(s@.subrange(i as int, j as int)[0] == 'n');
                        assert(s@[i as int] == '{');
                    }
                }
            }
            Some((None, j))
        },
        None => {
            match parse_id_at(s, i) {
                Some((id, j)) => {
                    proof {
                        assert forall|o: Option<BlockID>, jj: usize|
                            (i <= jj <= s@.len() && s@.subrange(i as int, jj as int)
                                == spec_emit_opt_id(o)) implies Some((Some(id), j)) == Some(
                            (o, jj),
                        ) by {
                            if o is None {
                                assert(s@.subrange(i as int, i + 4) =~= "null"@);
                            }
                        }
                    }
                    Some((Some(id), j))
                },
                None => {
                    proof {
                        assert forall|o: Option<BlockID>, jj: usize|
                            (i <= jj <= s@.len() && s@.subrange(i as int, jj as int)
                                == spec_emit_opt_id(o)) implies false by {
                            if o is None {
                                assert(s@.subrange(i as int, i + 4) =~= "null"@);
                            }
                        }
                    }
                    None
                },
            }
        },
    }
}

/// The anchor-and-tombstone head of a block on the wire.
#[derive(Clone, Copy, PartialEq, Eq, Structural)]
pub struct BlockHead {
    pub id: BlockID,
    pub left_origin: Option<BlockID>,
    pub right_origin: Option<BlockID>,
    pub is_deleted: bool,
}

/// The wire form of a block head's identity and left anchor.
pub open spec fn spec_emit_head_front(id: BlockID, lo: Option<BlockID>) -> Seq<char> {
    "{\"id\":"@ + (spec_emit_id(id) + (",\"left_origin\":"@ + spec_emit_opt_id(lo)))
}

/// The wire form of a block head's right anchor and tombstone flag.
pub open spec fn spec_emit_head_back(ro: Option<BlockID>, del: bool) -> Seq<char> {
    ",\"right_origin\":"@ + (spec_emit_opt_id(ro) + (",\"is_deleted\":"@ + spec_emit_bool(del)))
}

/// The wire form of a block's head.
pub open spec fn spec_emit_block_head(h: BlockHead) -> Seq<char> {
    spec_emit_head_front(h.id, h.left_origin) + spec_emit_head_back(h.right_origin, h.is_deleted)
}

/// The head a block carries on the wire.
pub open spec fn head_of(b: Block) -> BlockHead {
    BlockHead {
        id: b.id,
        left_origin: b.left_origin,
        right_origin: b.right_origin,
        is_deleted: b.is_deleted,
    }
}

/// The wire form of a block: its head, then the escaped content.
pub open spec fn spec_emit_block(b: Block) -> Seq<char> {
    spec_emit_block_head(head_of(b)) + (",\"content\":\""@ + ((escape(b.content.content@)
        + seq!['"']) + "}"@))
}

/// Two blocks carry the same data (ids, anchors, tombstone, text).
pub open spec fn block_like(a: Block, b: Block) -> bool {
    a.id == b.id && a.left_origin == b.left_origin && a.right_origin == b.right_origin
        && a.is_deleted == b.is_deleted && a.content.content@ == b.content.content@
}

/// Pointwise [`block_like`] on block sequences.
pub open spec fn blocks_like(a: Seq<Block>, b: Seq<Block>) -> bool {
    a.len() == b.len() && forall|i: int| 0 <= i < a.len() ==> #[trigger] block_like(a[i], b[i])
}

/// Splits a canonical head-front emission into its pieces.
pub proof fn lemma_front_decomp(s: Seq<char>, i: int, j: int, id: BlockID, lo: Option<BlockID>)
    requires
        0 <= i <= j <= s.len(),
        s.subrange(i, j) == spec_emit_head_front(id, lo),
    ensures
        ({
            let o1 = i + "{\"id\":"@.len();
            let o2 = o1 + spec_emit_id(id).len();
            let o3 = o2 + ",\"left_origin\":"@.len();
            &&& o3 + spec_emit_opt_id(lo).len() == j
            &&& s.subrange(i, o1) == "{\"id\":"@
            &&& s.subrange(o1, o2) == spec_emit_id(id)
            &&& s.subrange(o2, o3) == ",\"left_origin\":"@
            &&& s.subrange(o3, j) == spec_emit_opt_id(lo)
        }),
{
    let p1 = "{\"id\":"@;
    let p2 = spec_emit_id(id);
    let p3 = ",\"left_origin\":"@;
    let p4 = spec_emit_opt_id(lo);
    lemma_subrange_split(s, i, j, p1, p2 + (p3 + p4));
    lemma_subrange_split(s, i + p1.len(), j, p2, p3 + p4);
    lemma_subrange_split(s, i + p1.len() + p2.len(), j, p3, p4);
}

/// Splits a canonical head-back emission into its pieces.
pub proof fn lemma_back_decomp(s: Seq<char>, i: int, j: int, ro: Option<BlockID>, del: bool)
    requires
        0 <= i <= j <= s.len(),
        s.subrange(i, j) == spec_emit_head_back(ro, del),
    ensures
        ({
            let o1 = i + ",\"right_origin\":"@.len();
            let o2 = o1 + spec_emit_opt_id(ro).len();
            let o3 = o2 + ",\"is_deleted\":"@.len();
            &&& o3 + spec_emit_bool(del).len() == j
            &&& s.subrange(i, o1) == ",\"right_origin\":"@
            &&& s.subrange(o1, o2) == spec_emit_opt_id(ro)
            &&& s.subrange(o2, o3) == ",\"is_deleted\":"@
            &&& s.subrange(o3, j) == spec_emit_bool(del)
        }),
{
    let p1 = ",\"right_origin\":"@;
    let p2 = spec_emit_opt_id(ro);
    let p3 = ",\"is_deleted\":"@;
    let p4 = spec_emit_bool(del);
    lemma_subrange_split(s, i, j, p1, p2 + (p3 + p4));
    lemma_subrange_split(s, i + p1.len(), j, p2, p3 + p4);
    lemma_subrange_split(s, i + p1.len() + p2.len(), j, p3, p4);
}

/// Splits a canonical block-head emission into front and back.
pub proof fn lemma_head_decomp(s: Seq<char>, i: int, j: int, h: BlockHead)
    requires
        0 <= i <= j <= s.len(),
        s.subrange(i, j) == spec_emit_block_head(h),
    ensures
        ({
            let of = i + spec_emit_head_front(h.id, h.left_origin).len();
            &&& of <= j
            &&& s.subrange(i, of) == spec_emit_head_front(h.id, h.left_origin)
            &&& s.subrange(of, j) == spec_emit_head_back(h.right_origin, h.is_deleted)
        }),
{
    lemma_subrange_split(
        s,
        i,
        j,
        spec_emit_head_front(h.id, h.left_origin),
        spec_emit_head_back(h.right_origin, h.is_deleted),
    );
}

/// Parses a block head's identity and left anchor; deterministic on
/// canonical input.
#[verifier::rlimit(100)]
fn parse_head_front_at(s: &Vec<char>, i: usize) -> (r: Option<(BlockID, Option<BlockID>, usize)>)
    ensures
        forall|id: BlockID, lo: Option<BlockID>, j: usize|
            #![trigger spec_emit_head_front(id, lo), s@.subrange(i as int, j as int)]
            (i <= j <= s@.len() && s@.subrange(i as int, j as int) == spec_emit_head_front(id, lo))
                ==> r == Some((id, lo, j)),
        match r {
            Some((id, lo, rj)) => i < rj <= s@.len() && s@.subrange(i as int, rj as int)
                == spec_emit_head_front(id, lo),
            None => true,
        },
{
    let j1 = match expect_lit(s, i, "{\"id\":") {
        Some(j) => j,
        None => {
            proof {
                assert forall|id: BlockID, lo: Option<BlockID>, j: usize|
                    (i <= j <= s@.len() && s@.subrange(i as int, j as int)
                        == spec_emit_head_front(id, lo)) implies false by {
                    lemma_front_decomp(s@, i as int, j as int, id, lo);
                }
            }
            return None;
        },
    };
    let (bid, j2) = match parse_id_at(s, j1) {
        Some(p) => p,
        None => {
            proof {
                assert forall|id: BlockID, lo: Option<BlockID>, j: usize|
                    (i <= j <= s@.len() && s@.subrange(i as int, j as int)
                        == spec_emit_head_front(id, lo)) implies false by {
                    lemma_front_decomp(s@, i as int, j as int, id, lo);
                }
            }
            return None;
        },
    };
    let j3 = match expect_lit(s, j2, ",\"left_origin\":") {
        Some(j) => j,
        None => {
            proof {
                assert forall|id: BlockID, lo: Option<BlockID>, j: usize|
                    (i <= j <= s@.len() && s@.subrange(i as int, j as int)
                        == spec_emit_head_front(id, lo)) implies false by {
                    lemma_front_decomp(s@, i as int, j as int, id, lo);
                }
            }
            return None;
        },
    };
    let (lo, j4) = match parse_opt_id_at(s, j3) {
        Some(p) => p,
        None => {
            proof {
                assert forall|id: BlockID, lo: Option<BlockID>, j: usize|
                    (i <= j <= s@.len() && s@.subrange(i as int, j as int)
                        == spec_emit_head_front(id, lo)) implies false by {
                    lemma_front_decomp(s@, i as int, j as int, id, lo);
                }
            }
            return None;
        },
    };
    proof {
        assert(s@.subrange(i as int, j4 as int) =~= spec_emit_head_front(bid, lo)) by {
            assert(s@.subrange(i as int, j4 as int) =~= s@.subrange(i as int, j1 as int)
                + (s@.subrange(j1 as int, j2 as int) + (s@.subrange(j2 as int, j3 as int)
                + s@.subrange(j3 as int, j4 as int))));
        }
        assert forall|id: BlockID, lo2: Option<BlockID>, j: usize|
            (i <= j <= s@.len() && s@.subrange(i as int, j as int) == spec_emit_head_front(
                id,
                lo2,
            )) implies Some((bid, lo, j4)) == Some((id, lo2, j)) by {
            lemma_front_decomp(s@, i as int, j as int, id, lo2);
        }
    }
    Some((bid, lo, j4))
}

/// Parses a block head's right anchor and tombstone flag; deterministic on
/// canonical input.
#[verifier::rlimit(100)]
fn parse_head_back_at(s: &Vec<char>, i: usize) -> (r: Option<(Option<BlockID>, bool, usize)>)
    ensures
        forall|ro: Option<BlockID>, del: bool, j: usize|
            #![trigger spec_emit_head_back(ro, del), s@.subrange(i as int, j as int)]
            (i <= j <= s@.len() && s@.subrange(i as int, j as int) == spec_emit_head_back(
                ro,
                del,
            )) ==> r == Some((ro, del, j)),
        match r {
            Some((ro, del, rj)) => i < rj <= s@.len() && s@.subrange(i as int, rj as int)
                == spec_emit_head_back(ro, del),
            None => true,
        },
{
    let j1 = match expect_lit(s, i, ",\"right_origin\":") {
        Some(j) => j,
        None => {
            proof {
                assert forall|ro: Option<BlockID>, del: bool, j: usize|
                    (i <= j <= s@.len() && s@.subrange(i as int, j as int)
                        == spec_emit_head_back(ro, del)) implies false by {
                    lemma_back_decomp(s@, i as int, j as int, ro, del);
                }
            }
            return None;
        },
    };
    let (ro, j2) = match parse_opt_id_at(s, j1) {
        Some(p) => p,
        None => {
            proof {
                assert forall|ro: Option<BlockID>, del: bool, j: usize|
                    (i <= j <= s@.len() && s@.subrange(i as int, j as int)
                        == spec_emit_head_back(ro, del)) implies false by {
                    lemma_back_decomp(s@, i as int, j as int, ro, del);
                }
            }
            return None;
        },
    };
    let j3 = match expect_lit(s, j2, ",\"is_deleted\":") {
        Some(j) => j,
        None => {
            proof {
                assert forall|ro: Option<BlockID>, del: bool, j: usize|
                    (i <= j <= s@.len() && s@.subrange(i as int, j as int)
                        == spec_emit_head_back(ro, del)) implies false by {
                    lemma_back_decomp(s@, i as int, j as int, ro, del);
                }
            }
            return None;
        },
    };
    let (del, j4) = match parse_bool_at(s, j3) {
        Some(p) => p,
        None => {
            proof {
                assert forall|ro: Option<BlockID>, del: bool, j: usize|
                    (i <= j <= s@.len() && s@.subrange(i as int, j as int)
                        == spec_emit_head_back(ro, del)) implies false by {
                    lemma_back_decomp(s@, i as int, j as int, ro, del);
                }
            }
            return None;
        },
    };
    proof {
        assert(s@.subrange(i as int, j4 as int) =~= spec_emit_head_back(ro, del)) by {
            assert(s@.subrange(i as int, j4 as int) =~= s@.subrange(i as int, j1 as int)
                + (s@.subrange(j1 as int, j2 as int) + (s@.subrange(j2 as int, j3 as int)
                + s@.subrange(j3 as int, j4 as int))));
        }
        assert forall|ro2: Option<BlockID>, del2: bool, j: usize|
            (i <= j <= s@.len() && s@.subrange(i as int, j as int) == spec_emit_head_back(
                ro2,
                del2,
            )) implies Some((ro, del, j4)) == Some((ro2, del2, j)) by {
            lemma_back_decomp(s@, i as int, j as int, ro2, del2);
        }
    }
    Some((ro, del, j4))
}

/// Parses a wire block head; deterministic on canonical input.
fn parse_block_head_at(s: &Vec<char>, i: usize) -> (r: Option<(BlockHead, usize)>)
    ensures
        forall|h: BlockHead, j: usize|
            #![trigger spec_emit_block_head(h), s@.subrange(i as int, j as int)]
            (i <= j <= s@.len() && s@.subrange(i as int, j as int) == spec_emit_block_head(h))
                ==> r == Some((h, j)),
        match r {
            Some((h, rj)) => i < rj <= s@.len() && s@.subrange(i as int, rj as int)
                == spec_emit_block_head(h),
            None => true,
        },
{
    let (bid, lo, jf) = match parse_head_front_at(s, i) {
        Some(p) => p,
        None => {
            proof {
                assert forall|h: BlockHead, j: usize|
                    (i <= j <= s@.len() && s@.subrange(i as int, j as int)
                        == spec_emit_block_head(h)) implies false by {
                    lemma_head_decomp(s@, i as int, j as int, h);
                }
            }
            return None;
        },
    };
    let (ro, del, jb) = match parse_head_back_at(s, jf) {
        Some(p) => p,
        None => {
            proof {
                assert forall|h: BlockHead, j: usize|
                    (i <= j <= s@.len() && s@.subrange(i as int, j as int)
                        == spec_emit_block_head(h)) implies false by {
                    lemma_head_decomp(s@, i as int, j as int, h);
                }
            }
            return None;
        },
    };
    let rh = BlockHead { id: bid, left_origin: lo, right_origin: ro, is_deleted: del };
    proof {
        assert(s@.subrange(i as int, jb as int) =~= spec_emit_block_head(rh)) by {
            assert(s@.subrange(i as int, jb as int) =~= s@.subrange(i as int, jf as int)
                + s@.subrange(jf as int, jb as int));
        }
        assert forall|h: BlockHead, j: usize|
            (i <= j <= s@.len() && s@.subrange(i as int, j as int) == spec_emit_block_head(h))
            implies Some((rh, jb)) == Some((h, j)) by {
            lemma_head_decomp(s@, i as int, j as int, h);
        }
    }
    Some((rh, jb))
}

/// Splits a canonical block emission into its head and content pieces.
pub proof fn lemma_block_decomp(s: Seq<char>, i: int, j: int, b: Block)
    requires
        0 <= i <= j <= s.len(),
        s.subrange(i, j) == spec_emit_block(b),
    ensures
        ({
            let oh = i + spec_emit_block_head(head_of(b)).len();
            let o9 = oh + ",\"content\":\""@.len();
            let o10 = o9 + escape(b.content.content@).len() + 1;
            &&& o10 + 1 == j
            &&& s.subrange(i, oh) == spec_emit_block_head(head_of(b))
            &&& s.subrange(oh, o9) == ",\"content\":\""@
            &&& s.subrange(o9, o10) == escape(b.content.content@) + seq!['"']
            &&& s.subrange(o10, j) == "}"@
        }),
{
    let ph = spec_emit_block_head(head_of(b));
    let p9 = ",\"content\":\""@;
    let p10 = escape(b.content.content@) + seq!['"'];
    let p11 = "}"@;
    reveal_strlit("}");
    lemma_subrange_split(s, i, j, ph, p9 + (p10 + p11));
    let oh = i + ph.len();
    lemma_subrange_split(s, oh, j, p9, p10 + p11);
    let o9 = oh + p9.len();
    lemma_subrange_split(s, o9, j, p10, p11);
}

/// Reassembles a block emission from its head and content pieces.
pub proof fn lemma_block_recompose(
    s: Seq<char>,
    i: int,
    j8: int,
    j9: int,
    j10: int,
    j11: int,
    rb: Block,
)
    requires
        0 <= i <= j8 <= j9 <= j10 <= j11 <= s.len(),
        s.subrange(i, j8) == spec_emit_block_head(head_of(rb)),
        s.subrange(j8, j9) == ",\"content\":\""@,
        s.subrange(j9, j10) == escape(rb.content.content@) + seq!['"'],
        s.subrange(j10, j11) == "}"@,
    ensures
        s.subrange(i, j11) == spec_emit_block(rb),
{
    assert(s.subrange(i, j11) =~= s.subrange(i, j8) + s.subrange(j8, j9) + s.subrange(j9, j10)
        + s.subrange(j10, j11));
    assert(s.subrange(i, j8) + s.subrange(j8, j9) + s.subrange(j9, j10) + s.subrange(j10, j11)
        =~= spec_emit_block(rb));
}

/// Parses a wire block; deterministic on canonical input.
#[verifier::rlimit(100)]
pub fn parse_block_at(s: &Vec<char>, i: usize) -> (r: Option<(Block, usize)>)
    ensures
        forall|bk: Block, j: usize|
            #![trigger spec_emit_block(bk), s@.subrange(i as int, j as int)]
            (i <= j <= s@.len() && s@.subrange(i as int, j as int) == spec_emit_block(bk)) ==> (
            match r {
                Some((rb, rj)) => block_like(rb, bk) && rj == j,
                None => false,
            }),
        match r {
            Some((rb, rj)) => i < rj <= s@.len() && s@.subrange(i as int, rj as int)
                == spec_emit_block(rb),
            None => true,
        },
{
    let (h, j8) = match parse_block_head_at(s, i) {
        Some(p) => p,
        None => {
            proof {
                assert forall|bk: Block, j: usize|
                    (i <= j <= s@.len() && s@.subrange(i as int, j as int) == spec_emit_block(bk))
                    implies false by {
                    lemma_block_decomp(s@, i as int, j as int, bk);
                }
            }
            return None;
        },
    };
    let j9 = match expect_lit(s, j8, ",\"content\":\"") {
        Some(j) => j,
        None => {
            proof {
                assert forall|bk: Block, j: usize|
                    (i <= j <= s@.len() && s@.subrange(i as int, j as int) == spec_emit_block(bk))
                    implies false by {
                    lemma_block_decomp(s@, i as int, j as int, bk);
                }
            }
            return None;
        },
    };
    let (text, j10) = match parse_string_body(s, j9) {
        Some(p) => p,
        None => {
            proof {
                assert forall|bk: Block, j: usize|
                    (i <= j <= s@.len() && s@.subrange(i as int, j as int) == spec_emit_block(bk))
                    implies false by {
                    lemma_block_decomp(s@, i as int, j as int, bk);
                }
            }
            return None;
        },
    };
    let j11 = match expect_lit(s, j10, "}") {
        Some(j) => j,
        None => {
            proof {
                assert forall|bk: Block, j: usize|
                    (i <= j <= s@.len() && s@.subrange(i as int, j as int) == spec_emit_block(bk))
                    implies false by {
                    lemma_block_decomp(s@, i as int, j as int, bk);
                }
            }
            return None;
        },
    };
    let content = chars_to_string(&text);
    let rb = Block {
        id: h.id,
        left_origin: h.left_origin,
        right_origin: h.right_origin,
        is_deleted: h.is_deleted,
        content: Content { content },
    };
    proof {
        assert(head_of(rb) == h);
        lemma_block_recompose(s@, i as int, j8 as int, j9 as int, j10 as int, j11 as int, rb);
        assert forall|bk: Block, j: usize|
            (i <= j <= s@.len() && s@.subrange(i as int, j as int) == spec_emit_block(bk)) implies (
        block_like(rb, bk) && j11 == j) by {
            lemma_block_decomp(s@, i as int, j as int, bk);
        }
    }
    Some((rb, j11))
}

/// Builds a `String` from a character vector.
pub fn chars_to_string(v: &Vec<char>) -> (r: String)
    ensures
        r@ == v@,
{
    let mut r = String::new();
    let mut i: usize = 0;
    while i < v.len()
        invariant
            i <= v@.len(),
            r@ =~= v@.take(i as int),
        decreases v@.len() - i,
    {
        push_char(&mut r, v[i]);
        proof {
            assert(v@.take(i + 1) =~= v@.take(i as int).push(v@[i as int]));
        }
        i = i + 1;
    }
    proof {
        assert(v@.take(v@.len() as int) =~= v@);
    }
    r
}

/// The characters of a string slice.
pub fn str_chars(s: &str) -> (r: Vec<char>)
    ensures
        r@ == s@,
{
    let n = s.unicode_len();
    let mut r: Vec<char> = Vec::new();
    let mut i: usize = 0;
    while i < n
        invariant
            n == s@.len(),
            i <= n,
            r@ =~= s@.take(i as int),
        decreases n - i,
    {
        r.push(s.get_char(i));
        proof {
            assert(s@.take(i + 1) =~= s@.take(i as int).push(s@[i as int]));
        }
        i = i + 1;
    }
    proof {
        assert(s@.take(n as int) =~= s@);
    }
    r
}


/// The wire form of a block list.
pub open spec fn spec_emit_blocks_rest(bs: Seq<Block>) -> Seq<char>
    decreases bs.len(),
{
    if bs.len() == 0 {
        Seq::<char>::empty()
    } else {
        ","@ + (spec_emit_block(bs[0]) + spec_emit_blocks_rest(bs.skip(1)))
    }
}

/// The wire form of a block list: the blocks between brackets, separated by
/// commas.
pub open spec fn spec_emit_blocks(bs: Seq<Block>) -> Seq<char> {
    if bs.len() == 0 {
        "["@ + "]"@
    } else {
        "["@ + (spec_emit_block(bs[0]) + (spec_emit_blocks_rest(bs.skip(1)) + "]"@))
    }
}

/// Splits a canonical non-empty list tail into its first block and the rest.
pub proof fn lemma_blocks_rest_decomp(s: Seq<char>, i: int, j: int, bs: Seq<Block>)
    requires
        0 <= i <= j <= s.len(),
        s.subrange(i, j) == spec_emit_blocks_rest(bs) + "]"@,
        bs.len() > 0,
    ensures
        ({
            let o1 = i + 1;
            let o2 = o1 + spec_emit_block(bs[0]).len();
            &&& o2 <= j
            &&& s.subrange(i, o1) == ","@
            &&& s.subrange(o1, o2) == spec_emit_block(bs[0])
            &&& s.subrange(o2, j) == spec_emit_blocks_rest(bs.skip(1)) + "]"@
        }),
{
    reveal_strlit(",");
    assert(spec_emit_blocks_rest(bs) + "]"@ =~= ","@ + (spec_emit_block(bs[0])
        + (spec_emit_blocks_rest(bs.skip(1)) + "]"@)));
    lemma_subrange_split(s, i, j, ","@, spec_emit_block(bs[0]) + (spec_emit_blocks_rest(
        bs.skip(1),
    ) + "]"@));
    assert((","@).len() == 1);
    lemma_subrange_split(s, i + 1, j, spec_emit_block(bs[0]), spec_emit_blocks_rest(bs.skip(1))
        + "]"@);
}

/// Parses the tail of a wire block list (`("," block)* "]"`); deterministic
/// on canonical input.
#[verifier::rlimit(100)]
fn parse_blocks_rest(s: &Vec<char>, i: usize) -> (r: Option<(Vec<Block>, usize)>)
    ensures
        forall|bs: Seq<Block>, j: usize|
            #![trigger spec_emit_blocks_rest(bs), s@.subrange(i as int, j as int)]
            (i <= j <= s@.len() && s@.subrange(i as int, j as int) == spec_emit_blocks_rest(bs)
                + "]"@) ==> (match r {
                Some((rv, rj)) => blocks_like(rv@, bs) && rj == j,
                None => false,
            }),
        match r {
            Some((rv, rj)) => i < rj <= s@.len() && s@.subrange(i as int, rj as int)
                == spec_emit_blocks_rest(rv@) + "]"@,
            None => true,
        },
    decreases s@.len() - i,
{
    proof {
        reveal_strlit("]");
        reveal_strlit(",");
    }
    match expect_lit(s, i, "]") {
        Some(j) => {
            let rv: Vec<Block> = Vec::new();
            proof {
                assert(spec_emit_blocks_rest(rv@) =~= Seq::<char>::empty());
                assert(s@.subrange(i as int, j as int) =~= spec_emit_blocks_rest(rv@) + "]"@);
                assert forall|bs: Seq<Block>, jj: usize|
                    (i <= jj <= s@.len() && s@.subrange(i as int, jj as int)
                        == spec_emit_blocks_rest(bs) + "]"@) implies (blocks_like(rv@, bs) && j
                    == jj) by {
                    if bs.len() > 0 {
                        lemma_blocks_rest_decomp(s@, i as int, jj as int, bs);
                        assert(s@.subrange(i as int, i + 1)[0] == ',');
                        assert(s@.subrange(i as int, j as int)[0] == ']');
                    } else {
                        assert(spec_emit_blocks_rest(bs) =~= Seq::<char>::empty());
                        assert(s@.subrange(i as int, jj as int) =~= "]"@);
                    }
                }
            }
            return Some((rv, j));
        },
        None => {},
    }
    let j1 = match expect_lit(s, i, ",") {
        Some(j) => j,
        None => {
            proof {
                assert forall|bs: Seq<Block>, jj: usize|
                    (i <= jj <= s@.len() && s@.subrange(i as int, jj as int)
                        == spec_emit_blocks_rest(bs) + "]"@) implies false by {
                    if bs.len() > 0 {
                        lemma_blocks_rest_decomp(s@, i as int, jj as int, bs);
                    } else {
                        assert(spec_emit_blocks_rest(bs) =~= Seq::<char>::empty());
                        assert(s@.subrange(i as int, jj as int) =~= "]"@);
                    }
                }
            }
            return None;
        },
    };
    let (b, j2) = match parse_block_at(s, j1) {
        Some(p) => p,
        None => {
            proof {
                assert forall|bs: Seq<Block>, jj: usize|
                    (i <= jj <= s@.len() && s@.subrange(i as int, jj as int)
                        == spec_emit_blocks_rest(bs) + "]"@) implies false by {
                    if bs.len() > 0 {
                        lemma_blocks_rest_decomp(s@, i as int, jj as int, bs);
                    } else {
                        assert(spec_emit_blocks_rest(bs) =~= Seq::<char>::empty());
                        assert(s@.subrange(i as int, jj as int) =~= "]"@);
                        assert(s@.subrange(i as int, j1 as int)[0] == ',');
                    }
                }
            }
            return None;
        },
    };
    let (mut tail, j3) = match parse_blocks_rest(s, j2) {
        Some(p) => p,
        None => {
            proof {
                assert forall|bs: Seq<Block>, jj: usize|
                    (i <= jj <= s@.len() && s@.subrange(i as int, jj as int)
                        == spec_emit_blocks_rest(bs) + "]"@) implies false by {
                    if bs.len() > 0 {
                        lemma_blocks_rest_decomp(s@, i as int, jj as int, bs);
                    } else {
                        assert(spec_emit_blocks_rest(bs) =~= Seq::<char>::empty());
                        assert(s@.subrange(i as int, jj as int) =~= "]"@);
                        assert(s@.subrange(i as int, j1 as int)[0] == ',');
                    }
                }
            }
            return None;
        },
    };
    let ghost tl = tail@;
    tail.insert(0, b);
    proof {
        assert(tail@ =~= seq![b] + tl);
        assert(tail@.skip(1) =~= tl);
        assert(tail@.len() > 0);
        assert(tail@[0] == b);
        assert(spec_emit_blocks_rest(tail@) == ","@ + (spec_emit_block(tail@[0])
            + spec_emit_blocks_rest(tail@.skip(1))));
        assert(spec_emit_blocks_rest(tail@.skip(1)) == spec_emit_blocks_rest(tl));
        assert(spec_emit_block(tail@[0]) == spec_emit_block(b));
        assert(s@.subrange(i as int, j3 as int) =~= spec_emit_blocks_rest(tail@) + "]"@) by {
            assert(s@.subrange(i as int, j3 as int) =~= s@.subrange(i as int, j1 as int)
                + (s@.subrange(j1 as int, j2 as int) + s@.subrange(j2 as int, j3 as int)));
            assert(s@.subrange(i as int, j1 as int) + (s@.subrange(j1 as int, j2 as int)
                + s@.subrange(j2 as int, j3 as int)) =~= spec_emit_blocks_rest(tail@) + "]"@);
        }
        assert forall|bs: Seq<Block>, jj: usize|
            (i <= jj <= s@.len() && s@.subrange(i as int, jj as int) == spec_emit_blocks_rest(bs)
                + "]"@) implies (blocks_like(tail@, bs) && j3 == jj) by {
            if bs.len() > 0 {
                lemma_blocks_rest_decomp(s@, i as int, jj as int, bs);
                assert(blocks_like(tail@.skip(1), bs.skip(1)));
                assert forall|t: int| 0 <= t < tail@.len() implies #[trigger] block_like(
                    tail@[t],
                    bs[t],
                ) by {
                    if t > 0 {
                        assert(tail@[t] == tail@.skip(1)[t - 1]);
                        assert(block_like(tail@.skip(1)[t - 1], bs.skip(1)[t - 1]));
                        assert(bs.skip(1)[t - 1] == bs[t]);
                    }
                }
            } else {
                assert(spec_emit_blocks_rest(bs) =~= Seq::<char>::empty());
                assert(s@.subrange(i as int, jj as int) =~= "]"@);
                assert(s@.subrange(i as int, j1 as int)[0] == ',');
            }
        }
    }
    Some((tail, j3))
}

/// Parses a wire block list; deterministic on canonical input.
#[verifier::rlimit(100)]
pub fn parse_blocks_at(s: &Vec<char>, i: usize) -> (r: Option<(Vec<Block>, usize)>)
    ensures
        forall|bs: Seq<Block>, j: usize|
            #![trigger spec_emit_blocks(bs), s@.subrange(i as int, j as int)]
            (i <= j <= s@.len() && s@.subrange(i as int, j as int) == spec_emit_blocks(bs)) ==> (
            match r {
                Some((rv, rj)) => blocks_like(rv@, bs) && rj == j,
                None => false,
            }),
        match r {
            Some((rv, rj)) => i < rj <= s@.len() && s@.subrange(i as int, rj as int)
                == spec_emit_blocks(rv@),
            None => true,
        },
{
    proof {
        reveal_strlit("[");
        reveal_strlit("]");
    }
    let j0 = match expect_lit(s, i, "[") {
        Some(j) => j,
        None => {
            proof {
                assert forall|bs: Seq<Block>, jj: usize|
                    (i <= jj <= s@.len() && s@.subrange(i as int, jj as int) == spec_emit_blocks(
                        bs,
                    )) implies false by {
                    lemma_blocks_head(s@, i as int, jj as int, bs);
                }
            }
            return None;
        },
    };
    match expect_lit(s, j0, "]") {
        Some(j) => {
            let rv: Vec<Block> = Vec::new();
            proof {
                assert(s@.subrange(i as int, j as int) =~= spec_emit_blocks(rv@)) by {
                    assert(s@.subrange(i as int, j as int) =~= s@.subrange(i as int, j0 as int)
                        + s@.subrange(j0 as int, j as int));
                }
                assert forall|bs: Seq<Block>, jj: usize|
                    (i <= jj <= s@.len() && s@.subrange(i as int, jj as int) == spec_emit_blocks(
                        bs,
                    )) implies (blocks_like(rv@, bs) && j == jj) by {
                    lemma_blocks_head(s@, i as int, jj as int, bs);
                    if bs.len() > 0 {
                        let o2 = j0 as int + spec_emit_block(bs[0]).len();
                        lemma_block_decomp(s@, j0 as int, o2, bs[0]);
                        assert(s@.subrange(j0 as int, j0 + 6) == "{\"id\":"@) by {
                            assert(("{\"id\":"@).len() == 6) by {
                                reveal_strlit("{\"id\":");
                            }
                        }
                        assert(s@[j0 as int] == '{') by {
                            reveal_strlit("{\"id\":");
                            assert(s@.subrange(j0 as int, j0 + 6)[0] == '{');
                        }
                        assert(s@.subrange(j0 as int, j as int)[0] == ']');
                    }
                }
            }
            return Some((rv, j));
        },
        None => {},
    }
    let (b, j2) = match parse_block_at(s, j0) {
        Some(p) => p,
        None => {
            proof {
                assert forall|bs: Seq<Block>, jj: usize|
                    (i <= jj <= s@.len() && s@.subrange(i as int, jj as int) == spec_emit_blocks(
                        bs,
                    )) implies false by {
                    lemma_blocks_head(s@, i as int, jj as int, bs);
                    if bs.len() == 0 {
                        assert(s@.subrange(j0 as int, jj as int) =~= "]"@);
                    }
                }
            }
            return None;
        },
    };
    let (mut tail, j3) = match parse_blocks_rest(s, j2) {
        Some(p) => p,
        None => {
            proof {
                assert forall|bs: Seq<Block>, jj: usize|
                    (i <= jj <= s@.len() && s@.subrange(i as int, jj as int) == spec_emit_blocks(
                        bs,
                    )) implies false by {
                    lemma_blocks_head(s@, i as int, jj as int, bs);
                    if bs.len() == 0 {
                        assert(s@.subrange(j0 as int, jj as int) =~= "]"@);
                        assert(s@[j0 as int] == ']');
                        assert(s@.subrange(j0 as int, j2 as int) == spec_emit_block(b));
                        lemma_block_decomp(s@, j0 as int, j2 as int, b);
                        assert(s@[j0 as int] == '{');
                    }
                }
            }
            return None;
        },
    };
    let ghost tl = tail@;
    tail.insert(0, b);
    proof {
        assert(tail@ =~= seq![b] + tl);
        assert(tail@.skip(1) =~= tl);
        assert(tail@.len() > 0);
        assert(tail@[0] == b);
        assert(spec_emit_blocks(tail@) == "["@ + (spec_emit_block(tail@[0])
            + (spec_emit_blocks_rest(tail@.skip(1)) + "]"@)));
        assert(spec_emit_blocks_rest(tail@.skip(1)) == spec_emit_blocks_rest(tl));
        assert(spec_emit_block(tail@[0]) == spec_emit_block(b));
        assert(s@.subrange(i as int, j3 as int) =~= spec_emit_blocks(tail@)) by {
            assert(s@.subrange(i as int, j3 as int) =~= s@.subrange(i as int, j0 as int)
                + (s@.subrange(j0 as int, j2 as int) + s@.subrange(j2 as int, j3 as int)));
            assert(s@.subrange(i as int, j0 as int) + (s@.subrange(j0 as int, j2 as int)
                + s@.subrange(j2 as int, j3 as int)) =~= spec_emit_blocks(tail@));
        }
        assert forall|bs: Seq<Block>, jj: usize|
            (i <= jj <= s@.len() && s@.subrange(i as int, jj as int) == spec_emit_blocks(bs))
            implies (blocks_like(tail@, bs) && j3 == jj) by {
            lemma_blocks_head(s@, i as int, jj as int, bs);
            if bs.len() == 0 {
                assert(s@.subrange(j0 as int, jj as int) =~= "]"@);
                assert(s@[j0 as int] == ']');
                assert(s@.subrange(j0 as int, j2 as int) == spec_emit_block(b));
                lemma_block_decomp(s@, j0 as int, j2 as int, b);
                assert(s@[j0 as int] == '{');
            } else {
                assert(blocks_like(tail@.skip(1), bs.skip(1)));
                assert forall|t: int| 0 <= t < tail@.len() implies #[trigger] block_like(
                    tail@[t],
                    bs[t],
                ) by {
                    if t > 0 {
                        assert(tail@[t] == tail@.skip(1)[t - 1]);
                        assert(block_like(tail@.skip(1)[t - 1], bs.skip(1)[t - 1]));
                        assert(bs.skip(1)[t - 1] == bs[t]);
                    }
                }
            }
        }
    }
    Some((tail, j3))
}

/// Splits a canonical block-list emission behind its opening bracket.
pub proof fn lemma_blocks_head(s: Seq<char>, i: int, j: int, bs: Seq<Block>)
    requires
        0 <= i <= j <= s.len(),
        s.subrange(i, j) == spec_emit_blocks(bs),
    ensures
        i + 1 <= j,
        s.subrange(i, i + 1) == "["@,
        bs.len() == 0 ==> s.subrange(i + 1, j) == "]"@,
        bs.len() > 0 ==> ({
            let o2 = i + 1 + spec_emit_block(bs[0]).len();
            &&& o2 <= j
            &&& s.subrange(i + 1, o2) == spec_emit_block(bs[0])
            &&& s.subrange(o2, j) == spec_emit_blocks_rest(bs.skip(1)) + "]"@
        }),
{
    reveal_strlit("[");
    reveal_strlit("]");
    if bs.len() == 0 {
        lemma_subrange_split(s, i, j, "["@, "]"@);
    } else {
        lemma_subrange_split(s, i, j, "["@, spec_emit_block(bs[0]) + (spec_emit_blocks_rest(
            bs.skip(1),
        ) + "]"@));
        lemma_subrange_split(s, i + 1, j, spec_emit_block(bs[0]), spec_emit_blocks_rest(
            bs.skip(1),
        ) + "]"@);
    }
}


/// The wire form of one vector-clock entry: the stringified client id as the
/// key, the clock as the value.
pub open spec fn spec_emit_vc_entry(e: ClockEntry) -> Seq<char> {
    "\""@ + (spec_emit_u32(e.client) + ("\":"@ + spec_emit_u32(e.clock)))
}

/// The wire form of a vector clock's remaining entries.
pub open spec fn spec_emit_vc_rest(es: Seq<ClockEntry>) -> Seq<char>
    decreases es.len(),
{
    if es.len() == 0 {
        Seq::<char>::empty()
    } else {
        ","@ + (spec_emit_vc_entry(es[0]) + spec_emit_vc_rest(es.skip(1)))
    }
}

/// The wire form of a vector clock: an object from stringified client ids to
/// clocks.
pub open spec fn spec_emit_vc(es: Seq<ClockEntry>) -> Seq<char> {
    if es.len() == 0 {
        "{"@ + "}"@
    } else {
        "{"@ + (spec_emit_vc_entry(es[0]) + (spec_emit_vc_rest(es.skip(1)) + "}"@))
    }
}

/// Splits a canonical vector-clock entry into its pieces.
pub proof fn lemma_vc_entry_decomp(s: Seq<char>, i: int, j: int, e: ClockEntry)
    requires
        0 <= i <= j <= s.len(),
        s.subrange(i, j) == spec_emit_vc_entry(e),
    ensures
        ({
            let o1 = i + 1;
            let o2 = o1 + spec_emit_u32(e.client).len();
            let o3 = o2 + 2;
            &&& o3 + spec_emit_u32(e.clock).len() == j
            &&& s.subrange(i, o1) == "\""@
            &&& s.subrange(o1, o2) == spec_emit_u32(e.client)
            &&& !is_digit(s[o2])
            &&& s.subrange(o2, o3) == "\":"@
            &&& s.subrange(o3, j) == spec_emit_u32(e.clock)
        }),
{
    reveal_strlit("\"");
    reveal_strlit("\":");
    let p1 = "\""@;
    let p2 = spec_emit_u32(e.client);
    let p3 = "\":"@;
    let p4 = spec_emit_u32(e.clock);
    lemma_subrange_split(s, i, j, p1, p2 + (p3 + p4));
    lemma_subrange_split(s, i + 1, j, p2, p3 + p4);
    let o2 = i + 1 + p2.len();
    lemma_subrange_split(s, o2, j, p3, p4);
    assert(s[o2] == '"') by {
        assert(s.subrange(o2, o2 + 2)[0] == '"');
    }
}

/// Parses a vector-clock entry; deterministic on canonical input followed by
/// a non-digit.
#[verifier::rlimit(100)]
fn parse_vc_entry_at(s: &Vec<char>, i: usize) -> (r: Option<(ClockEntry, usize)>)
    ensures
        forall|e: ClockEntry, j: usize|
            #![trigger spec_emit_vc_entry(e), s@.subrange(i as int, j as int)]
            (i <= j <= s@.len() && s@.subrange(i as int, j as int) == spec_emit_vc_entry(e) && (j
                == s@.len() || !is_digit(s@[j as int]))) ==> r == Some((e, j)),
        match r {
            Some((e, rj)) => i < rj <= s@.len() && s@.subrange(i as int, rj as int)
                == spec_emit_vc_entry(e) && (rj == s@.len() || !is_digit(s@[rj as int])),
            None => true,
        },
{
    let j1 = match expect_lit(s, i, "\"") {
        Some(j) => j,
        None => {
            proof {
                assert forall|e: ClockEntry, j: usize|
                    (i <= j <= s@.len() && s@.subrange(i as int, j as int) == spec_emit_vc_entry(e)
                        && (j == s@.len() || !is_digit(s@[j as int]))) implies false by {
                    lemma_vc_entry_decomp(s@, i as int, j as int, e);
                }
            }
            return None;
        },
    };
    let (client, j2) = match parse_u32_at(s, j1) {
        Some(p) => p,
        None => {
            proof {
                assert forall|e: ClockEntry, j: usize|
                    (i <= j <= s@.len() && s@.subrange(i as int, j as int) == spec_emit_vc_entry(e)
                        && (j == s@.len() || !is_digit(s@[j as int]))) implies false by {
                    lemma_vc_entry_decomp(s@, i as int, j as int, e);
                }
            }
            return None;
        },
    };
    let j3 = match expect_lit(s, j2, "\":") {
        Some(j) => j,
        None => {
            proof {
                assert forall|e: ClockEntry, j: usize|
                    (i <= j <= s@.len() && s@.subrange(i as int, j as int) == spec_emit_vc_entry(e)
                        && (j == s@.len() || !is_digit(s@[j as int]))) implies false by {
                    lemma_vc_entry_decomp(s@, i as int, j as int, e);
                }
            }
            return None;
        },
    };
    let (clock, j4) = match parse_u32_at(s, j3) {
        Some(p) => p,
        None => {
            proof {
                assert forall|e: ClockEntry, j: usize|
                    (i <= j <= s@.len() && s@.subrange(i as int, j as int) == spec_emit_vc_entry(e)
                        && (j == s@.len() || !is_digit(s@[j as int]))) implies false by {
                    lemma_vc_entry_decomp(s@, i as int, j as int, e);
                }
            }
            return None;
        },
    };
    let re = ClockEntry { client, clock };
    proof {
        assert(s@.subrange(i as int, j4 as int) =~= spec_emit_vc_entry(re)) by {
            assert(s@.subrange(i as int, j4 as int) =~= s@.subrange(i as int, j1 as int)
                + (s@.subrange(j1 as int, j2 as int) + (s@.subrange(j2 as int, j3 as int)
                + s@.subrange(j3 as int, j4 as int))));
        }
        assert forall|e: ClockEntry, j: usize|
            (i <= j <= s@.len() && s@.subrange(i as int, j as int) == spec_emit_vc_entry(e) && (j
                == s@.len() || !is_digit(s@[j as int]))) implies Some((re, j4)) == Some(
            (e, j),
        ) by {
            lemma_vc_entry_decomp(s@, i as int, j as int, e);
        }
    }
    Some((re, j4))
}

/// Splits a canonical vector-clock tail into its first entry and the rest.
pub proof fn lemma_vc_rest_decomp(s: Seq<char>, i: int, j: int, es: Seq<ClockEntry>)
    requires
        0 <= i <= j <= s.len(),
        s.subrange(i, j) == spec_emit_vc_rest(es) + "}"@,
        es.len() > 0,
    ensures
        ({
            let o1 = i + 1;
            let o2 = o1 + spec_emit_vc_entry(es[0]).len();
            &&& o2 < j
            &&& s.subrange(i, o1) == ","@
            &&& s.subrange(o1, o2) == spec_emit_vc_entry(es[0])
            &&& !is_digit(s[o2])
            &&& s.subrange(o2, j) == spec_emit_vc_rest(es.skip(1)) + "}"@
        }),
{
    reveal_strlit(",");
    reveal_strlit("}");
    assert(spec_emit_vc_rest(es) + "}"@ =~= ","@ + (spec_emit_vc_entry(es[0])
        + (spec_emit_vc_rest(es.skip(1)) + "}"@)));
    lemma_subrange_split(s, i, j, ","@, spec_emit_vc_entry(es[0]) + (spec_emit_vc_rest(es.skip(1))
        + "}"@));
    lemma_subrange_split(s, i + 1, j, spec_emit_vc_entry(es[0]), spec_emit_vc_rest(es.skip(1))
        + "}"@);
    let o2 = i + 1 + spec_emit_vc_entry(es[0]).len();
    assert(!is_digit(s[o2])) by {
        if es.skip(1).len() == 0 {
            assert(spec_emit_vc_rest(es.skip(1)) =~= Seq::<char>::empty());
            assert(s.subrange(o2, j) =~= "}"@);
            assert(s.subrange(o2, j)[0] == '}');
        } else {
            assert(s.subrange(o2, j)[0] == (spec_emit_vc_rest(es.skip(1)) + "}"@)[0]);
            assert((spec_emit_vc_rest(es.skip(1)) + "}"@)[0] == ',');
        }
    }
}

/// Parses the tail of a wire vector clock; deterministic on canonical input.
#[verifier::rlimit(100)]
fn parse_vc_rest(s: &Vec<char>, i: usize) -> (r: Option<(Vec<ClockEntry>, usize)>)
    ensures
        forall|es: Seq<ClockEntry>, j: usize|
            #![trigger spec_emit_vc_rest(es), s@.subrange(i as int, j as int)]
            (i <= j <= s@.len() && s@.subrange(i as int, j as int) == spec_emit_vc_rest(es)
                + "}"@) ==> (match r {
                Some((rv, rj)) => rv@ == es && rj == j,
                None => false,
            }),
        match r {
            Some((rv, rj)) => i < rj <= s@.len() && s@.subrange(i as int, rj as int)
                == spec_emit_vc_rest(rv@) + "}"@,
            None => true,
        },
    decreases s@.len() - i,
{
    proof {
        reveal_strlit("}");
        reveal_strlit(",");
    }
    match expect_lit(s, i, "}") {
        Some(j) => {
            let rv: Vec<ClockEntry> = Vec::new();
            proof {
                assert(spec_emit_vc_rest(rv@) =~= Seq::<char>::empty());
                assert(s@.subrange(i as int, j as int) =~= spec_emit_vc_rest(rv@) + "}"@);
                assert forall|es: Seq<ClockEntry>, jj: usize|
                    (i <= jj <= s@.len() && s@.subrange(i as int, jj as int) == spec_emit_vc_rest(
                        es,
                    ) + "}"@) implies (rv@ == es && j == jj) by {
                    if es.len() > 0 {
                        lemma_vc_rest_decomp(s@, i as int, jj as int, es);
                        assert(s@.subrange(i as int, i + 1)[0] == ',');
                        assert(s@.subrange(i as int, j as int)[0] == '}');
                    } else {
                        assert(spec_emit_vc_rest(es) =~= Seq::<char>::empty());
                        assert(s@.subrange(i as int, jj as int) =~= "}"@);
                        assert(es =~= rv@);
                    }
                }
            }
            return Some((rv, j));
        },
        None => {},
    }
    let j1 = match expect_lit(s, i, ",") {
        Some(j) => j,
        None => {
            proof {
                assert forall|es: Seq<ClockEntry>, jj: usize|
                    (i <= jj <= s@.len() && s@.subrange(i as int, jj as int) == spec_emit_vc_rest(
                        es,
                    ) + "}"@) implies false by {
                    if es.len() > 0 {
                        lemma_vc_rest_decomp(s@, i as int, jj as int, es);
                    } else {
                        assert(spec_emit_vc_rest(es) =~= Seq::<char>::empty());
                        assert(s@.subrange(i as int, jj as int) =~= "}"@);
                    }
                }
            }
            return None;
        },
    };
    let (e, j2) = match parse_vc_entry_at(s, j1) {
        Some(p) => p,
        None => {
            proof {
                assert forall|es: Seq<ClockEntry>, jj: usize|
                    (i <= jj <= s@.len() && s@.subrange(i as int, jj as int) == spec_emit_vc_rest(
                        es,
                    ) + "}"@) implies false by {
                    if es.len() > 0 {
                        lemma_vc_rest_decomp(s@, i as int, jj as int, es);
                    } else {
                        assert(spec_emit_vc_rest(es) =~= Seq::<char>::empty());
                        assert(s@.subrange(i as int, jj as int) =~= "}"@);
                        assert(s@.subrange(i as int, j1 as int)[0] == ',');
                    }
                }
            }
            return None;
        },
    };
    let (mut tail, j3) = match parse_vc_rest(s, j2) {
        Some(p) => p,
        None => {
            proof {
                assert forall|es: Seq<ClockEntry>, jj: usize|
                    (i <= jj <= s@.len() && s@.subrange(i as int, jj as int) == spec_emit_vc_rest(
                        es,
                    ) + "}"@) implies false by {
                    if es.len() > 0 {
                        lemma_vc_rest_decomp(s@, i as int, jj as int, es);
                    } else {
                        assert(spec_emit_vc_rest(es) =~= Seq::<char>::empty());
                        assert(s@.subrange(i as int, jj as int) =~= "}"@);
                        assert(s@.subrange(i as int, j1 as int)[0] == ',');
                    }
                }
            }
            return None;
        },
    };
    let ghost tl = tail@;
    tail.insert(0, e);
    proof {
        assert(tail@ =~= seq![e] + tl);
        assert(tail@.skip(1) =~= tl);
        assert(tail@.len() > 0);
        assert(tail@[0] == e);
        assert(spec_emit_vc_rest(tail@) == ","@ + (spec_emit_vc_entry(tail@[0])
            + spec_emit_vc_rest(tail@.skip(1))));
        assert(spec_emit_vc_rest(tail@.skip(1)) == spec_emit_vc_rest(tl));
        assert(s@.subrange(i as int, j3 as int) =~= spec_emit_vc_rest(tail@) + "}"@) by {
            assert(s@.subrange(i as int, j3 as int) =~= s@.subrange(i as int, j1 as int)
                + (s@.subrange(j1 as int, j2 as int) + s@.subrange(j2 as int, j3 as int)));
            assert(s@.subrange(i as int, j1 as int) + (s@.subrange(j1 as int, j2 as int)
                + s@.subrange(j2 as int, j3 as int)) =~= spec_emit_vc_rest(tail@) + "}"@);
        }
        assert forall|es: Seq<ClockEntry>, jj: usize|
            (i <= jj <= s@.len() && s@.subrange(i as int, jj as int) == spec_emit_vc_rest(es)
                + "}"@) implies (tail@ == es && j3 == jj) by {
            if es.len() > 0 {
                lemma_vc_rest_decomp(s@, i as int, jj as int, es);
                assert(tail@ =~= es);
            } else {
                assert(spec_emit_vc_rest(es) =~= Seq::<char>::empty());
                assert(s@.subrange(i as int, jj as int) =~= "}"@);
                assert(s@.subrange(i as int, j1 as int)[0] == ',');
            }
        }
    }
    Some((tail, j3))
}

/// Parses a wire vector clock; deterministic on canonical input.
#[verifier::rlimit(100)]
fn parse_vc_at(s: &Vec<char>, i: usize) -> (r: Option<(Vec<ClockEntry>, usize)>)
    ensures
        forall|es: Seq<ClockEntry>, j: usize|
            #![trigger spec_emit_vc(es), s@.subrange(i as int, j as int)]
            (i <= j <= s@.len() && s@.subrange(i as int, j as int) == spec_emit_vc(es)) ==> (
            match r {
                Some((rv, rj)) => rv@ == es && rj == j,
                None => false,
            }),
        match r {
            Some((rv, rj)) => i < rj <= s@.len() && s@.subrange(i as int, rj as int)
                == spec_emit_vc(rv@),
            None => true,
        },
{
    proof {
        reveal_strlit("{");
        reveal_strlit("}");
        reveal_strlit("\"");
    }
    let j0 = match expect_lit(s, i, "{") {
        Some(j) => j,
        None => {
            proof {
                assert forall|es: Seq<ClockEntry>, jj: usize|
                    (i <= jj <= s@.len() && s@.subrange(i as int, jj as int) == spec_emit_vc(es))
                    implies false by {
                    lemma_vc_head(s@, i as int, jj as int, es);
                }
            }
            return None;
        },
    };
    match expect_lit(s, j0, "}") {
        Some(j) => {
            let rv: Vec<ClockEntry> = Vec::new();
            proof {
                assert(s@.subrange(i as int, j as int) =~= spec_emit_vc(rv@)) by {
                    assert(s@.subrange(i as int, j as int) =~= s@.subrange(i as int, j0 as int)
                        + s@.subrange(j0 as int, j as int));
                }
                assert forall|es: Seq<ClockEntry>, jj: usize|
                    (i <= jj <= s@.len() && s@.subrange(i as int, jj as int) == spec_emit_vc(es))
                    implies (rv@ == es && j == jj) by {
                    lemma_vc_head(s@, i as int, jj as int, es);
                    if es.len() > 0 {
                        assert(s@[j0 as int] == '"') by {
                            let o2 = j0 as int + spec_emit_vc_entry(es[0]).len();
                            lemma_vc_entry_decomp(s@, j0 as int, o2, es[0]);
                            assert(s@.subrange(j0 as int, j0 + 1)[0] == '"');
                        }
                        assert(s@.subrange(j0 as int, j as int)[0] == '}');
                    } else {
                        assert(es =~= rv@);
                    }
                }
            }
            return Some((rv, j));
        },
        None => {},
    }
    let (e, j2) = match parse_vc_entry_at(s, j0) {
        Some(p) => p,
        None => {
            proof {
                assert forall|es: Seq<ClockEntry>, jj: usize|
                    (i <= jj <= s@.len() && s@.subrange(i as int, jj as int) == spec_emit_vc(es))
                    implies false by {
                    lemma_vc_head(s@, i as int, jj as int, es);
                    if es.len() == 0 {
                        assert(s@.subrange(j0 as int, jj as int) =~= "}"@);
                    }
                }
            }
            return None;
        },
    };
    let (mut tail, j3) = match parse_vc_rest(s, j2) {
        Some(p) => p,
        None => {
            proof {
                assert forall|es: Seq<ClockEntry>, jj: usize|
                    (i <= jj <= s@.len() && s@.subrange(i as int, jj as int) == spec_emit_vc(es))
                    implies false by {
                    lemma_vc_head(s@, i as int, jj as int, es);
                    if es.len() == 0 {
                        assert(s@.subrange(j0 as int, jj as int) =~= "}"@);
                        assert(s@[j0 as int] == '}');
                        assert(s@.subrange(j0 as int, j2 as int) == spec_emit_vc_entry(e));
                        lemma_vc_entry_decomp(s@, j0 as int, j2 as int, e);
                        assert(s@.subrange(j0 as int, j0 + 1)[0] == '"');
                    }
                }
            }
            return None;
        },
    };
    let ghost tl = tail@;
    tail.insert(0, e);
    proof {
        assert(tail@ =~= seq![e] + tl);
        assert(tail@.skip(1) =~= tl);
        assert(tail@.len() > 0);
        assert(tail@[0] == e);
        assert(spec_emit_vc(tail@) == "{"@ + (spec_emit_vc_entry(tail@[0]) + (spec_emit_vc_rest(
            tail@.skip(1),
        ) + "}"@)));
        assert(spec_emit_vc_rest(tail@.skip(1)) == spec_emit_vc_rest(tl));
        assert(s@.subrange(i as int, j3 as int) =~= spec_emit_vc(tail@)) by {
            assert(s@.subrange(i as int, j3 as int) =~= s@.subrange(i as int, j0 as int)
                + (s@.subrange(j0 as int, j2 as int) + s@.subrange(j2 as int, j3 as int)));
            assert(s@.subrange(i as int, j0 as int) + (s@.subrange(j0 as int, j2 as int)
                + s@.subrange(j2 as int, j3 as int)) =~= spec_emit_vc(tail@));
        }
        assert forall|es: Seq<ClockEntry>, jj: usize|
            (i <= jj <= s@.len() && s@.subrange(i as int, jj as int) == spec_emit_vc(es)) implies (
        tail@ == es && j3 == jj) by {
            lemma_vc_head(s@, i as int, jj as int, es);
            if es.len() == 0 {
                assert(s@.subrange(j0 as int, jj as int) =~= "}"@);
                assert(s@[j0 as int] == '}');
                assert(s@.subrange(j0 as int, j2 as int) == spec_emit_vc_entry(e));
                lemma_vc_entry_decomp(s@, j0 as int, j2 as int, e);
                assert(s@.subrange(j0 as int, j0 + 1)[0] == '"');
            } else {
                assert(tail@ =~= es);
            }
        }
    }
    Some((tail, j3))
}

/// Splits a canonical vector-clock emission behind its opening brace.
pub proof fn lemma_vc_head(s: Seq<char>, i: int, j: int, es: Seq<ClockEntry>)
    requires
        0 <= i <= j <= s.len(),
        s.subrange(i, j) == spec_emit_vc(es),
    ensures
        i + 1 <= j,
        s.subrange(i, i + 1) == "{"@,
        es.len() == 0 ==> s.subrange(i + 1, j) == "}"@,
        es.len() > 0 ==> ({
            let o2 = i + 1 + spec_emit_vc_entry(es[0]).len();
            &&& o2 < j
            &&& s.subrange(i + 1, o2) == spec_emit_vc_entry(es[0])
            &&& !is_digit(s[o2])
            &&& s.subrange(o2, j) == spec_emit_vc_rest(es.skip(1)) + "}"@
        }),
{
    reveal_strlit("{");
    reveal_strlit("}");
    if es.len() == 0 {
        lemma_subrange_split(s, i, j, "{"@, "}"@);
    } else {
        lemma_subrange_split(s, i, j, "{"@, spec_emit_vc_entry(es[0]) + (spec_emit_vc_rest(
            es.skip(1),
        ) + "}"@));
        lemma_subrange_split(s, i + 1, j, spec_emit_vc_entry(es[0]), spec_emit_vc_rest(es.skip(1))
            + "}"@);
        let o2 = i + 1 + spec_emit_vc_entry(es[0]).len();
        assert(!is_digit(s[o2])) by {
            if es.skip(1).len() == 0 {
                assert(spec_emit_vc_rest(es.skip(1)) =~= Seq::<char>::empty());
                assert(s.subrange(o2, j) =~= "}"@);
                assert(s.subrange(o2, j)[0] == '}');
            } else {
                reveal_strlit(",");
                assert(s.subrange(o2, j)[0] == (spec_emit_vc_rest(es.skip(1)) + "}"@)[0]);
                assert((spec_emit_vc_rest(es.skip(1)) + "}"@)[0] == ',');
            }
        }
    }
}


/// Appends the canonical decimal form of a value.
pub fn emit_u32_into(out: &mut String, n: u32)
    ensures
        final(out)@ == old(out)@ + spec_emit_u32(n),
    decreases n,
{
    if n < 10 {
        push_char(out, hex_c(n));
        proof {
            assert(hex_char(n as int) == digit_char(n as int));
            assert(out@ =~= old(out)@ + spec_emit_u32(n));
        }
    } else {
        emit_u32_into(out, n / 10);
        push_char(out, hex_c(n % 10));
        proof {
            assert(hex_char((n % 10) as int) == digit_char((n % 10) as int));
            assert(out@ =~= old(out)@ + spec_emit_u32(n));
        }
    }
}

/// Appends the wire form of a block id.
pub fn emit_id_into(out: &mut String, id: &BlockID)
    ensures
        final(out)@ == old(out)@ + spec_emit_id(*id),
{
    out.append("{\"client\":");
    emit_u32_into(out, id.client);
    out.append(",\"clock\":");
    emit_u32_into(out, id.clock);
    out.append("}");
    proof {
        assert(out@ =~= old(out)@ + spec_emit_id(*id));
    }
}

/// Appends the wire form of an optional block id.
pub fn emit_opt_id_into(out: &mut String, o: &Option<BlockID>)
    ensures
        final(out)@ == old(out)@ + spec_emit_opt_id(*o),
{
    match o {
        None => {
            out.append("null");
        },
        Some(id) => {
            emit_id_into(out, id);
        },
    }
}

/// Appends the wire form of a boolean.
pub fn emit_bool_into(out: &mut String, b: bool)
    ensures
        final(out)@ == old(out)@ + spec_emit_bool(b),
{
    if b {
        out.append("true");
    } else {
        out.append("false");
    }
}

/// Appends the wire form of a block.
pub fn emit_block_into(out: &mut String, b: &Block)
    ensures
        final(out)@ == old(out)@ + spec_emit_block(*b),
{
    out.append("{\"id\":");
    emit_id_into(out, &b.id);
    out.append(",\"left_origin\":");
    emit_opt_id_into(out, &b.left_origin);
    out.append(",\"right_origin\":");
    emit_opt_id_into(out, &b.right_origin);
    out.append(",\"is_deleted\":");
    emit_bool_into(out, b.is_deleted);
    out.append(",\"content\":");
    emit_string_into(out, b.content.content.as_str());
    out.append("}");
    proof {
        assert(",\"content\":\""@ =~= ",\"content\":"@ + seq!['"']) by {
            reveal_strlit(",\"content\":");
            reveal_strlit(",\"content\":\"");
        }
        assert(spec_emit_string(b.content.content@) =~= seq!['"'] + (escape(b.content.content@)
            + seq!['"']));
        assert(out@ =~= old(out)@ + spec_emit_block(*b));
    }
}

/// Appends the wire form of the blocks from index `k` on, each preceded by a
/// comma.
fn emit_blocks_rest_into(out: &mut String, v: &Vec<Block>, k: usize)
    requires
        k <= v@.len(),
    ensures
        final(out)@ == old(out)@ + spec_emit_blocks_rest(v@.skip(k as int)),
    decreases v@.len() - k,
{
    if k == v.len() {
        proof {
            assert(v@.skip(k as int) =~= Seq::<Block>::empty());
            assert(out@ =~= old(out)@ + spec_emit_blocks_rest(v@.skip(k as int)));
        }
        return ;
    }
    out.append(",");
    emit_block_into(out, &v[k]);
    emit_blocks_rest_into(out, v, k + 1);
    proof {
        assert(v@.skip(k as int)[0] == v@[k as int]);
        assert(v@.skip(k as int).skip(1) =~= v@.skip(k + 1));
        assert(spec_emit_blocks_rest(v@.skip(k as int)) == ","@ + (spec_emit_block(v@[k as int])
            + spec_emit_blocks_rest(v@.skip(k + 1))));
        assert(out@ =~= old(out)@ + spec_emit_blocks_rest(v@.skip(k as int)));
    }
}

/// The wire form of a batch of blocks, as sent in a pull response.
pub fn serialize_updates(v: &Vec<Block>) -> (r: String)
    ensures
        r@ == spec_emit_blocks(v@),
{
    let mut out = String::new();
    out.append("[");
    if v.len() == 0 {
        out.append("]");
        proof {
            assert(out@ =~= spec_emit_blocks(v@));
        }
        return out;
    }
    emit_block_into(&mut out, &v[0]);
    emit_blocks_rest_into(&mut out, v, 1);
    out.append("]");
    proof {
        assert(v@.skip(1) =~= v@.skip(1));
        assert(out@ =~= spec_emit_blocks(v@));
    }
    out
}

/// Reads back a batch of blocks from its wire form. Returns the exact batch
/// a matching [`serialize_updates`] call was given (the round trip is the
/// identity); malformed or trailing input yields `None`.
pub fn deserialize_updates(s: &str) -> (r: Option<Vec<Block>>)
    ensures
        match r {
            Some(rv) => s@ == spec_emit_blocks(rv@),
            None => true,
        },
        forall|bs: Seq<Block>| s@ == spec_emit_blocks(bs) ==> r is Some,
        forall|bs: Seq<Block>|
            s@ == spec_emit_blocks(bs) ==> (match r {
                Some(rv) => blocks_like(rv@, bs),
                None => false,
            }),
{
    let cs = str_chars(s);
    match parse_blocks_at(&cs, 0) {
        Some((rv, j)) => {
            if j == cs.len() {
                proof {
                    assert(cs@.subrange(0, j as int) =~= cs@);
                }
                Some(rv)
            } else {
                proof {
                    assert forall|bs: Seq<Block>| s@ == spec_emit_blocks(bs) implies false by {
                        assert(cs@.subrange(0, cs@.len() as int) =~= cs@);
                    }
                }
                None
            }
        },
        None => {
            proof {
                assert forall|bs: Seq<Block>| s@ == spec_emit_blocks(bs) implies false by {
                    assert(cs@.subrange(0, cs@.len() as int) =~= cs@);
                }
            }
            None
        },
    }
}

/// Appends the wire form of the vector-clock entries from index `k` on, each
/// preceded by a comma.
fn emit_vc_rest_into(out: &mut String, v: &Vec<ClockEntry>, k: usize)
    requires
        k <= v@.len(),
    ensures
        final(out)@ == old(out)@ + spec_emit_vc_rest(v@.skip(k as int)),
    decreases v@.len() - k,
{
    if k == v.len() {
        proof {
            assert(v@.skip(k as int) =~= Seq::<ClockEntry>::empty());
            assert(out@ =~= old(out)@ + spec_emit_vc_rest(v@.skip(k as int)));
        }
        return ;
    }
    out.append(",");
    emit_vc_entry_into(out, &v[k]);
    emit_vc_rest_into(out, v, k + 1);
    proof {
        assert(v@.skip(k as int)[0] == v@[k as int]);
        assert(v@.skip(k as int).skip(1) =~= v@.skip(k + 1));
        assert(spec_emit_vc_rest(v@.skip(k as int)) == ","@ + (spec_emit_vc_entry(v@[k as int])
            + spec_emit_vc_rest(v@.skip(k + 1))));
        assert(out@ =~= old(out)@ + spec_emit_vc_rest(v@.skip(k as int)));
    }
}

/// Appends the wire form of one vector-clock entry.
fn emit_vc_entry_into(out: &mut String, e: &ClockEntry)
    ensures
        final(out)@ == old(out)@ + spec_emit_vc_entry(*e),
{
    out.append("\"");
    emit_u32_into(out, e.client);
    out.append("\":");
    emit_u32_into(out, e.clock);
    proof {
        assert(out@ =~= old(out)@ + spec_emit_vc_entry(*e));
    }
}

/// The wire form of a vector clock, as sent in a pull request.
pub fn serialize_vector_clock(vc: &VectorClock) -> (r: String)
    ensures
        r@ == spec_emit_vc(vc.clock_map@),
{
    let mut out = String::new();
    out.append("{");
    if vc.clock_map.len() == 0 {
        out.append("}");
        proof {
            assert(out@ =~= spec_emit_vc(vc.clock_map@));
        }
        return out;
    }
    emit_vc_entry_into(&mut out, &vc.clock_map[0]);
    emit_vc_rest_into(&mut out, &vc.clock_map, 1);
    out.append("}");
    proof {
        assert(out@ =~= spec_emit_vc(vc.clock_map@));
    }
    out
}

/// Whether all entries name distinct clients.
fn entries_unique(v: &Vec<ClockEntry>) -> (r: bool)
    ensures
        r == (forall|i: int, j: int|
            0 <= i < j < v@.len() ==> v@[i].client != v@[j].client),
{
    let n = v.len();
    let mut i: usize = 0;
    while i < n
        invariant
            n == v@.len(),
            i <= n,
            forall|a: int, b: int| 0 <= a < b < i ==> v@[a].client != v@[b].client,
        decreases n - i,
    {
        let mut j: usize = 0;
        while j < i
            invariant
                n == v@.len(),
                i < n,
                j <= i,
                forall|a: int| 0 <= a < j ==> v@[a].client != v@[i as int].client,
            decreases i - j,
        {
            if v[j].client == v[i].client {
                return false;
            }
            j = j + 1;
        }
        i = i + 1;
    }
    true
}

/// Reads back a vector clock from its wire form. Returns exactly the clock a
/// matching [`serialize_vector_clock`] call was given (the round trip is the
/// identity); malformed input, trailing input, or a repeated client yields
/// `None`.
pub fn deserialize_vector_clock(s: &str) -> (r: Option<VectorClock>)
    ensures
        match r {
            Some(rv) => rv.wf() && s@ == spec_emit_vc(rv.clock_map@),
            None => true,
        },
        forall|es: Seq<ClockEntry>|
            (s@ == spec_emit_vc(es) && (forall|i: int, j: int|
                0 <= i < j < es.len() ==> es[i].client != es[j].client)) ==> (match r {
                Some(rv) => rv.clock_map@ == es,
                None => false,
            }),
{
    let cs = str_chars(s);
    match parse_vc_at(&cs, 0) {
        Some((rv, j)) => {
            if j == cs.len() {
                if entries_unique(&rv) {
                    proof {
                        assert(cs@.subrange(0, j as int) =~= cs@);
                    }
                    Some(VectorClock { clock_map: rv })
                } else {
                    proof {
                        assert forall|es: Seq<ClockEntry>|
                            (s@ == spec_emit_vc(es) && (forall|a: int, b: int|
                                0 <= a < b < es.len() ==> es[a].client != es[b].client))
                            implies false by {
                            assert(cs@.subrange(0, cs@.len() as int) =~= cs@);
                            assert(rv@ == es);
                        }
                    }
                    None
                }
            } else {
                proof {
                    assert forall|es: Seq<ClockEntry>|
                        (s@ == spec_emit_vc(es) && (forall|a: int, b: int|
                            0 <= a < b < es.len() ==> es[a].client != es[b].client))
                        implies false by {
                        assert(cs@.subrange(0, cs@.len() as int) =~= cs@);
                    }
                }
                None
            }
        },
        None => {
            proof {
                assert forall|es: Seq<ClockEntry>|
                    (s@ == spec_emit_vc(es) && (forall|a: int, b: int|
                        0 <= a < b < es.len() ==> es[a].client != es[b].client)) implies false by {
                    assert(cs@.subrange(0, cs@.len() as int) =~= cs@);
                }
            }
            None
        },
    }
}


/// The wire form of one peer: its client id and address.
pub open spec fn spec_emit_peer(p: Peer) -> Seq<char> {
    "{\"client_id\":"@ + (spec_emit_u32(p.client_id) + (",\"ip_addr\":\""@ + ((escape(p.ip_addr@)
        + seq!['"']) + "}"@)))
}

/// The wire form of a peer list's remaining entries.
pub open spec fn spec_emit_peers_rest(ps: Seq<Peer>) -> Seq<char>
    decreases ps.len(),
{
    if ps.len() == 0 {
        Seq::<char>::empty()
    } else {
        ","@ + (spec_emit_peer(ps[0]) + spec_emit_peers_rest(ps.skip(1)))
    }
}

/// The wire form of a peer list, as broadcast when the membership changes.
pub open spec fn spec_emit_peers(ps: Seq<Peer>) -> Seq<char> {
    if ps.len() == 0 {
        "["@ + "]"@
    } else {
        "["@ + (spec_emit_peer(ps[0]) + (spec_emit_peers_rest(ps.skip(1)) + "]"@))
    }
}

/// Pointwise [`peer_like`] on peer sequences.
pub open spec fn peers_like(a: Seq<Peer>, b: Seq<Peer>) -> bool {
    a.len() == b.len() && forall|i: int| 0 <= i < a.len() ==> #[trigger] peer_like(a[i], b[i])
}

/// Splits a canonical peer emission into its pieces.
pub proof fn lemma_peer_decomp(s: Seq<char>, i: int, j: int, p: Peer)
    requires
        0 <= i <= j <= s.len(),
        s.subrange(i, j) == spec_emit_peer(p),
    ensures
        ({
            let o1 = i + "{\"client_id\":"@.len();
            let o2 = o1 + spec_emit_u32(p.client_id).len();
            let o3 = o2 + ",\"ip_addr\":\""@.len();
            let o4 = o3 + escape(p.ip_addr@).len() + 1;
            &&& o4 + 1 == j
            &&& s.subrange(i, o1) == "{\"client_id\":"@
            &&& s.subrange(o1, o2) == spec_emit_u32(p.client_id)
            &&& !is_digit(s[o2])
            &&& s.subrange(o2, o3) == ",\"ip_addr\":\""@
            &&& s.subrange(o3, o4) == escape(p.ip_addr@) + seq!['"']
            &&& s.subrange(o4, j) == "}"@
        }),
{
    let p1 = "{\"client_id\":"@;
    let p2 = spec_emit_u32(p.client_id);
    let p3 = ",\"ip_addr\":\""@;
    let p4 = escape(p.ip_addr@) + seq!['"'];
    let p5 = "}"@;
    reveal_strlit(",\"ip_addr\":\"");
    reveal_strlit("}");
    lemma_subrange_split(s, i, j, p1, p2 + (p3 + (p4 + p5)));
    let o1 = i + p1.len();
    lemma_subrange_split(s, o1, j, p2, p3 + (p4 + p5));
    let o2 = o1 + p2.len();
    lemma_subrange_split(s, o2, j, p3, p4 + p5);
    let o3 = o2 + p3.len();
    lemma_subrange_split(s, o3, j, p4, p5);
    assert(s[o2] == ',') by {
        assert(s.subrange(o2, o3)[0] == ',');
    }
}

/// Parses a wire peer; deterministic on canonical input.
#[verifier::rlimit(100)]
pub fn parse_peer_at(s: &Vec<char>, i: usize) -> (r: Option<(Peer, usize)>)
    ensures
        forall|pe: Peer, j: usize|
            #![trigger spec_emit_peer(pe), s@.subrange(i as int, j as int)]
            (i <= j <= s@.len() && s@.subrange(i as int, j as int) == spec_emit_peer(pe)) ==> (
            match r {
                Some((rp, rj)) => peer_like(rp, pe) && rj == j,
                None => false,
            }),
        match r {
            Some((rp, rj)) => i < rj <= s@.len() && s@.subrange(i as int, rj as int)
                == spec_emit_peer(rp),
            None => true,
        },
{
    let j1 = match expect_lit(s, i, "{\"client_id\":") {
        Some(j) => j,
        None => {
            proof {
                assert forall|pe: Peer, j: usize|
                    (i <= j <= s@.len() && s@.subrange(i as int, j as int) == spec_emit_peer(pe))
                    implies false by {
                    lemma_peer_decomp(s@, i as int, j as int, pe);
                }
            }
            return None;
        },
    };
    let (cid, j2) = match parse_u32_at(s, j1) {
        Some(p) => p,
        None => {
            proof {
                assert forall|pe: Peer, j: usize|
                    (i <= j <= s@.len() && s@.subrange(i as int, j as int) == spec_emit_peer(pe))
                    implies false by {
                    lemma_peer_decomp(s@, i as int, j as int, pe);
                }
            }
            return None;
        },
    };
    let j3 = match expect_lit(s, j2, ",\"ip_addr\":\"") {
        Some(j) => j,
        None => {
            proof {
                assert forall|pe: Peer, j: usize|
                    (i <= j <= s@.len() && s@.subrange(i as int, j as int) == spec_emit_peer(pe))
                    implies false by {
                    lemma_peer_decomp(s@, i as int, j as int, pe);
                }
            }
            return None;
        },
    };
    let (text, j4) = match parse_string_body(s, j3) {
        Some(p) => p,
        None => {
            proof {
                assert forall|pe: Peer, j: usize|
                    (i <= j <= s@.len() && s@.subrange(i as int, j as int) == spec_emit_peer(pe))
                    implies false by {
                    lemma_peer_decomp(s@, i as int, j as int, pe);
                }
            }
            return None;
        },
    };
    let j5 = match expect_lit(s, j4, "}") {
        Some(j) => j,
        None => {
            proof {
                assert forall|pe: Peer, j: usize|
                    (i <= j <= s@.len() && s@.subrange(i as int, j as int) == spec_emit_peer(pe))
                    implies false by {
                    lemma_peer_decomp(s@, i as int, j as int, pe);
                }
            }
            return None;
        },
    };
    let ip = chars_to_string(&text);
    let rp = Peer { client_id: cid, ip_addr: ip };
    proof {
        assert(s@.subrange(i as int, j5 as int) =~= spec_emit_peer(rp)) by {
            assert(s@.subrange(i as int, j5 as int) =~= s@.subrange(i as int, j1 as int)
                + (s@.subrange(j1 as int, j2 as int) + (s@.subrange(j2 as int, j3 as int)
                + (s@.subrange(j3 as int, j4 as int) + s@.subrange(j4 as int, j5 as int)))));
        }
        assert forall|pe: Peer, j: usize|
            (i <= j <= s@.len() && s@.subrange(i as int, j as int) == spec_emit_peer(pe)) implies (
        peer_like(rp, pe) && j5 == j) by {
            lemma_peer_decomp(s@, i as int, j as int, pe);
        }
    }
    Some((rp, j5))
}

/// Splits a canonical non-empty peer-list tail into its first entry and the
/// rest.
pub proof fn lemma_peers_rest_decomp(s: Seq<char>, i: int, j: int, ps: Seq<Peer>)
    requires
        0 <= i <= j <= s.len(),
        s.subrange(i, j) == spec_emit_peers_rest(ps) + "]"@,
        ps.len() > 0,
    ensures
        ({
            let o1 = i + 1;
            let o2 = o1 + spec_emit_peer(ps[0]).len();
            &&& o2 <= j
            &&& s.subrange(i, o1) == ","@
            &&& s.subrange(o1, o2) == spec_emit_peer(ps[0])
            &&& s.subrange(o2, j) == spec_emit_peers_rest(ps.skip(1)) + "]"@
        }),
{
    reveal_strlit(",");
    assert(spec_emit_peers_rest(ps) + "]"@ =~= ","@ + (spec_emit_peer(ps[0])
        + (spec_emit_peers_rest(ps.skip(1)) + "]"@)));
    lemma_subrange_split(s, i, j, ","@, spec_emit_peer(ps[0]) + (spec_emit_peers_rest(ps.skip(1))
        + "]"@));
    lemma_subrange_split(s, i + 1, j, spec_emit_peer(ps[0]), spec_emit_peers_rest(ps.skip(1))
        + "]"@);
}

/// Parses the tail of a wire peer list; deterministic on canonical input.
#[verifier::rlimit(100)]
fn parse_peers_rest(s: &Vec<char>, i: usize) -> (r: Option<(Vec<Peer>, usize)>)
    ensures
        forall|ps: Seq<Peer>, j: usize|
            #![trigger spec_emit_peers_rest(ps), s@.subrange(i as int, j as int)]
            (i <= j <= s@.len() && s@.subrange(i as int, j as int) == spec_emit_peers_rest(ps)
                + "]"@) ==> (match r {
                Some((rv, rj)) => peers_like(rv@, ps) && rj == j,
                None => false,
            }),
        match r {
            Some((rv, rj)) => i < rj <= s@.len() && s@.subrange(i as int, rj as int)
                == spec_emit_peers_rest(rv@) + "]"@,
            None => true,
        },
    decreases s@.len() - i,
{
    proof {
        reveal_strlit("]");
        reveal_strlit(",");
    }
    match expect_lit(s, i, "]") {
        Some(j) => {
            let rv: Vec<Peer> = Vec::new();
            proof {
                assert(spec_emit_peers_rest(rv@) =~= Seq::<char>::empty());
                assert(s@.subrange(i as int, j as int) =~= spec_emit_peers_rest(rv@) + "]"@);
                assert forall|ps: Seq<Peer>, jj: usize|
                    (i <= jj <= s@.len() && s@.subrange(i as int, jj as int)
                        == spec_emit_peers_rest(ps) + "]"@) implies (peers_like(rv@, ps) && j
                    == jj) by {
                    if ps.len() > 0 {
                        lemma_peers_rest_decomp(s@, i as int, jj as int, ps);
                        assert(s@.subrange(i as int, i + 1)[0] == ',');
                        assert(s@.subrange(i as int, j as int)[0] == ']');
                    } else {
                        assert(spec_emit_peers_rest(ps) =~= Seq::<char>::empty());
                        assert(s@.subrange(i as int, jj as int) =~= "]"@);
                    }
                }
            }
            return Some((rv, j));
        },
        None => {},
    }
    let j1 = match expect_lit(s, i, ",") {
        Some(j) => j,
        None => {
            proof {
                assert forall|ps: Seq<Peer>, jj: usize|
                    (i <= jj <= s@.len() && s@.subrange(i as int, jj as int)
                        == spec_emit_peers_rest(ps) + "]"@) implies false by {
                    if ps.len() > 0 {
                        lemma_peers_rest_decomp(s@, i as int, jj as int, ps);
                    } else {
                        assert(spec_emit_peers_rest(ps) =~= Seq::<char>::empty());
                        assert(s@.subrange(i as int, jj as int) =~= "]"@);
                    }
                }
            }
            return None;
        },
    };
    let (p0, j2) = match parse_peer_at(s, j1) {
        Some(p) => p,
        None => {
            proof {
                assert forall|ps: Seq<Peer>, jj: usize|
                    (i <= jj <= s@.len() && s@.subrange(i as int, jj as int)
                        == spec_emit_peers_rest(ps) + "]"@) implies false by {
                    if ps.len() > 0 {
                        lemma_peers_rest_decomp(s@, i as int, jj as int, ps);
                    } else {
                        assert(spec_emit_peers_rest(ps) =~= Seq::<char>::empty());
                        assert(s@.subrange(i as int, jj as int) =~= "]"@);
                        assert(s@.subrange(i as int, j1 as int)[0] == ',');
                    }
                }
            }
            return None;
        },
    };
    let (mut tail, j3) = match parse_peers_rest(s, j2) {
        Some(p) => p,
        None => {
            proof {
                assert forall|ps: Seq<Peer>, jj: usize|
                    (i <= jj <= s@.len() && s@.subrange(i as int, jj as int)
                        == spec_emit_peers_rest(ps) + "]"@) implies false by {
                    if ps.len() > 0 {
                        lemma_peers_rest_decomp(s@, i as int, jj as int, ps);
                    } else {
                        assert(spec_emit_peers_rest(ps) =~= Seq::<char>::empty());
                        assert(s@.subrange(i as int, jj as int) =~= "]"@);
                        assert(s@.subrange(i as int, j1 as int)[0] == ',');
                    }
                }
            }
            return None;
        },
    };
    let ghost tl = tail@;
    tail.insert(0, p0);
    proof {
        assert(tail@ =~= seq![p0] + tl);
        assert(tail@.skip(1) =~= tl);
        assert(tail@.len() > 0);
        assert(tail@[0] == p0);
        assert(spec_emit_peers_rest(tail@) == ","@ + (spec_emit_peer(tail@[0])
            + spec_emit_peers_rest(tail@.skip(1))));
        assert(spec_emit_peers_rest(tail@.skip(1)) == spec_emit_peers_rest(tl));
        assert(spec_emit_peer(tail@[0]) == spec_emit_peer(p0));
        assert(s@.subrange(i as int, j3 as int) =~= spec_emit_peers_rest(tail@) + "]"@) by {
            assert(s@.subrange(i as int, j3 as int) =~= s@.subrange(i as int, j1 as int)
                + (s@.subrange(j1 as int, j2 as int) + s@.subrange(j2 as int, j3 as int)));
            assert(s@.subrange(i as int, j1 as int) + (s@.subrange(j1 as int, j2 as int)
                + s@.subrange(j2 as int, j3 as int)) =~= spec_emit_peers_rest(tail@) + "]"@);
        }
        assert forall|ps: Seq<Peer>, jj: usize|
            (i <= jj <= s@.len() && s@.subrange(i as int, jj as int) == spec_emit_peers_rest(ps)
                + "]"@) implies (peers_like(tail@, ps) && j3 == jj) by {
            if ps.len() > 0 {
                lemma_peers_rest_decomp(s@, i as int, jj as int, ps);
                assert(peers_like(tail@.skip(1), ps.skip(1)));
                assert forall|t: int| 0 <= t < tail@.len() implies #[trigger] peer_like(
                    tail@[t],
                    ps[t],
                ) by {
                    if t > 0 {
                        assert(tail@[t] == tail@.skip(1)[t - 1]);
                        assert(peer_like(tail@.skip(1)[t - 1], ps.skip(1)[t - 1]));
                        assert(ps.skip(1)[t - 1] == ps[t]);
                    }
                }
            } else {
                assert(spec_emit_peers_rest(ps) =~= Seq::<char>::empty());
                assert(s@.subrange(i as int, jj as int) =~= "]"@);
                assert(s@.subrange(i as int, j1 as int)[0] == ',');
            }
        }
    }
    Some((tail, j3))
}

/// Splits a canonical peer-list emission behind its opening bracket.
pub proof fn lemma_peers_head(s: Seq<char>, i: int, j: int, ps: Seq<Peer>)
    requires
        0 <= i <= j <= s.len(),
        s.subrange(i, j) == spec_emit_peers(ps),
    ensures
        i + 1 <= j,
        s.subrange(i, i + 1) == "["@,
        ps.len() == 0 ==> s.subrange(i + 1, j) == "]"@,
        ps.len() > 0 ==> ({
            let o2 = i + 1 + spec_emit_peer(ps[0]).len();
            &&& o2 <= j
            &&& s.subrange(i + 1, o2) == spec_emit_peer(ps[0])
            &&& s.subrange(o2, j) == spec_emit_peers_rest(ps.skip(1)) + "]"@
        }),
{
    reveal_strlit("[");
    reveal_strlit("]");
    if ps.len() == 0 {
        lemma_subrange_split(s, i, j, "["@, "]"@);
    } else {
        lemma_subrange_split(s, i, j, "["@, spec_emit_peer(ps[0]) + (spec_emit_peers_rest(
            ps.skip(1),
        ) + "]"@));
        lemma_subrange_split(s, i + 1, j, spec_emit_peer(ps[0]), spec_emit_peers_rest(ps.skip(1))
            + "]"@);
    }
}

/// Parses a wire peer list; deterministic on canonical input.
#[verifier::rlimit(100)]
pub fn parse_peers_at(s: &Vec<char>, i: usize) -> (r: Option<(Vec<Peer>, usize)>)
    ensures
        forall|ps: Seq<Peer>, j: usize|
            #![trigger spec_emit_peers(ps), s@.subrange(i as int, j as int)]
            (i <= j <= s@.len() && s@.subrange(i as int, j as int) == spec_emit_peers(ps)) ==> (
            match r {
                Some((rv, rj)) => peers_like(rv@, ps) && rj == j,
                None => false,
            }),
        match r {
            Some((rv, rj)) => i < rj <= s@.len() && s@.subrange(i as int, rj as int)
                == spec_emit_peers(rv@),
            None => true,
        },
{
    proof {
        reveal_strlit("[");
        reveal_strlit("]");
        reveal_strlit("{\"client_id\":");
    }
    let j0 = match expect_lit(s, i, "[") {
        Some(j) => j,
        None => {
            proof {
                assert forall|ps: Seq<Peer>, jj: usize|
                    (i <= jj <= s@.len() && s@.subrange(i as int, jj as int) == spec_emit_peers(
                        ps,
                    )) implies false by {
                    lemma_peers_head(s@, i as int, jj as int, ps);
                }
            }
            return None;
        },
    };
    match expect_lit(s, j0, "]") {
        Some(j) => {
            let rv: Vec<Peer> = Vec::new();
            proof {
                assert(s@.subrange(i as int, j as int) =~= spec_emit_peers(rv@)) by {
                    assert(s@.subrange(i as int, j as int) =~= s@.subrange(i as int, j0 as int)
                        + s@.subrange(j0 as int, j as int));
                }
                assert forall|ps: Seq<Peer>, jj: usize|
                    (i <= jj <= s@.len() && s@.subrange(i as int, jj as int) == spec_emit_peers(
                        ps,
                    )) implies (peers_like(rv@, ps) && j == jj) by {
                    lemma_peers_head(s@, i as int, jj as int, ps);
                    if ps.len() > 0 {
                        let o2 = j0 as int + spec_emit_peer(ps[0]).len();
                        lemma_peer_decomp(s@, j0 as int, o2, ps[0]);
                        assert(s@.subrange(j0 as int, j0 + 13) == "{\"client_id\":"@) by {
                            assert(("{\"client_id\":"@).len() == 13);
                        }
                        assert(s@[j0 as int] == '{') by {
                            assert(s@.subrange(j0 as int, j0 + 13)[0] == '{');
                        }
                        assert(s@.subrange(j0 as int, j as int)[0] == ']');
                    }
                }
            }
            return Some((rv, j));
        },
        None => {},
    }
    let (p0, j2) = match parse_peer_at(s, j0) {
        Some(p) => p,
        None => {
            proof {
                assert forall|ps: Seq<Peer>, jj: usize|
                    (i <= jj <= s@.len() && s@.subrange(i as int, jj as int) == spec_emit_peers(
                        ps,
                    )) implies false by {
                    lemma_peers_head(s@, i as int, jj as int, ps);
                    if ps.len() == 0 {
                        assert(s@.subrange(j0 as int, jj as int) =~= "]"@);
                    }
                }
            }
            return None;
        },
    };
    let (mut tail, j3) = match parse_peers_rest(s, j2) {
        Some(p) => p,
        None => {
            proof {
                assert forall|ps: Seq<Peer>, jj: usize|
                    (i <= jj <= s@.len() && s@.subrange(i as int, jj as int) == spec_emit_peers(
                        ps,
                    )) implies false by {
                    lemma_peers_head(s@, i as int, jj as int, ps);
                    if ps.len() == 0 {
                        assert(s@.subrange(j0 as int, jj as int) =~= "]"@);
                        assert(s@[j0 as int] == ']');
                        assert(s@.subrange(j0 as int, j2 as int) == spec_emit_peer(p0));
                        lemma_peer_decomp(s@, j0 as int, j2 as int, p0);
                        assert(s@.subrange(j0 as int, j0 + 13)[0] == '{') by {
                            assert(("{\"client_id\":"@).len() == 13);
                        }
                    }
                }
            }
            return None;
        },
    };
    let ghost tl = tail@;
    tail.insert(0, p0);
    proof {
        assert(tail@ =~= seq![p0] + tl);
        assert(tail@.skip(1) =~= tl);
        assert(tail@.len() > 0);
        assert(tail@[0] == p0);
        assert(spec_emit_peers(tail@) == "["@ + (spec_emit_peer(tail@[0])
            + (spec_emit_peers_rest(tail@.skip(1)) + "]"@)));
        assert(spec_emit_peers_rest(tail@.skip(1)) == spec_emit_peers_rest(tl));
        assert(spec_emit_peer(tail@[0]) == spec_emit_peer(p0));
        assert(s@.subrange(i as int, j3 as int) =~= spec_emit_peers(tail@)) by {
            assert(s@.subrange(i as int, j3 as int) =~= s@.subrange(i as int, j0 as int)
                + (s@.subrange(j0 as int, j2 as int) + s@.subrange(j2 as int, j3 as int)));
            assert(s@.subrange(i as int, j0 as int) + (s@.subrange(j0 as int, j2 as int)
                + s@.subrange(j2 as int, j3 as int)) =~= spec_emit_peers(tail@));
        }
        assert forall|ps: Seq<Peer>, jj: usize|
            (i <= jj <= s@.len() && s@.subrange(i as int, jj as int) == spec_emit_peers(ps))
            implies (peers_like(tail@, ps) && j3 == jj) by {
            lemma_peers_head(s@, i as int, jj as int, ps);
            if ps.len() == 0 {
                assert(s@.subrange(j0 as int, jj as int) =~= "]"@);
                assert(s@[j0 as int] == ']');
                assert(s@.subrange(j0 as int, j2 as int) == spec_emit_peer(p0));
                lemma_peer_decomp(s@, j0 as int, j2 as int, p0);
                assert(s@.subrange(j0 as int, j0 + 13)[0] == '{') by {
                    assert(("{\"client_id\":"@).len() == 13);
                }
            } else {
                assert(peers_like(tail@.skip(1), ps.skip(1)));
                assert forall|t: int| 0 <= t < tail@.len() implies #[trigger] peer_like(
                    tail@[t],
                    ps[t],
                ) by {
                    if t > 0 {
                        assert(tail@[t] == tail@.skip(1)[t - 1]);
                        assert(peer_like(tail@.skip(1)[t - 1], ps.skip(1)[t - 1]));
                        assert(ps.skip(1)[t - 1] == ps[t]);
                    }
                }
            }
        }
    }
    Some((tail, j3))
}

/// Appends the wire form of one peer.
fn emit_peer_into(out: &mut String, p: &Peer)
    ensures
        final(out)@ == old(out)@ + spec_emit_peer(*p),
{
    out.append("{\"client_id\":");
    emit_u32_into(out, p.client_id);
    out.append(",\"ip_addr\":");
    emit_string_into(out, p.ip_addr.as_str());
    out.append("}");
    proof {
        assert(",\"ip_addr\":\""@ =~= ",\"ip_addr\":"@ + seq!['"']) by {
            reveal_strlit(",\"ip_addr\":");
            reveal_strlit(",\"ip_addr\":\"");
        }
        assert(spec_emit_string(p.ip_addr@) =~= seq!['"'] + (escape(p.ip_addr@) + seq!['"']));
        assert(out@ =~= old(out)@ + spec_emit_peer(*p));
    }
}

/// Appends the wire form of the peers from index `k` on, each preceded by a
/// comma.
fn emit_peers_rest_into(out: &mut String, v: &Vec<Peer>, k: usize)
    requires
        k <= v@.len(),
    ensures
        final(out)@ == old(out)@ + spec_emit_peers_rest(v@.skip(k as int)),
    decreases v@.len() - k,
{
    if k == v.len() {
        proof {
            assert(v@.skip(k as int) =~= Seq::<Peer>::empty());
            assert(out@ =~= old(out)@ + spec_emit_peers_rest(v@.skip(k as int)));
        }
        return ;
    }
    out.append(",");
    emit_peer_into(out, &v[k]);
    emit_peers_rest_into(out, v, k + 1);
    proof {
        assert(v@.skip(k as int)[0] == v@[k as int]);
        assert(v@.skip(k as int).skip(1) =~= v@.skip(k + 1));
        assert(spec_emit_peers_rest(v@.skip(k as int)) == ","@ + (spec_emit_peer(v@[k as int])
            + spec_emit_peers_rest(v@.skip(k + 1))));
        assert(out@ =~= old(out)@ + spec_emit_peers_rest(v@.skip(k as int)));
    }
}

/// The wire form of a peer list, as broadcast when the membership changes.
pub fn serialize_peers(v: &Vec<Peer>) -> (r: String)
    ensures
        r@ == spec_emit_peers(v@),
{
    let mut out = String::new();
    out.append("[");
    if v.len() == 0 {
        out.append("]");
        proof {
            assert(out@ =~= spec_emit_peers(v@));
        }
        return out;
    }
    emit_peer_into(&mut out, &v[0]);
    emit_peers_rest_into(&mut out, v, 1);
    out.append("]");
    proof {
        assert(out@ =~= spec_emit_peers(v@));
    }
    out
}

/// Reads back a peer list from its wire form. Returns a list carrying the
/// same data a matching [`serialize_peers`] call was given; malformed or
/// trailing input yields `None`.
pub fn deserialize_peers(s: &str) -> (r: Option<Vec<Peer>>)
    ensures
        match r {
            Some(rv) => s@ == spec_emit_peers(rv@),
            None => true,
        },
        forall|ps: Seq<Peer>|
            s@ == spec_emit_peers(ps) ==> (match r {
                Some(rv) => peers_like(rv@, ps),
                None => false,
            }),
{
    let cs = str_chars(s);
    match parse_peers_at(&cs, 0) {
        Some((rv, j)) => {
            if j == cs.len() {
                proof {
                    assert(cs@.subrange(0, j as int) =~= cs@);
                }
                Some(rv)
            } else {
                proof {
                    assert forall|ps: Seq<Peer>| s@ == spec_emit_peers(ps) implies false by {
                        assert(cs@.subrange(0, cs@.len() as int) =~= cs@);
                    }
                }
                None
            }
        },
        None => {
            proof {
                assert forall|ps: Seq<Peer>| s@ == spec_emit_peers(ps) implies false by {
                    assert(cs@.subrange(0, cs@.len() as int) =~= cs@);
                }
            }
            None
        },
    }
}

} // verus!
