//! The ciphertext envelope format.
//!
//! An encrypted entry body is stored as the text
//! `{"nonce":[...],"ciphertext":[...]}` where both fields are lists of the
//! bytes written in decimal. Encoding and parsing are verified against the
//! spec-level grammar below, and parsing an encoded envelope is proved to give
//! back the original byte strings.

use vstd::prelude::*;

verus! {

/// The decimal digit character for `d`.
pub open spec fn digit_char(d: int) -> char {
    if d == 0 {
        '0'
    } else if d == 1 {
        '1'
    } else if d == 2 {
        '2'
    } else if d == 3 {
        '3'
    } else if d == 4 {
        '4'
    } else if d == 5 {
        '5'
    } else if d == 6 {
        '6'
    } else if d == 7 {
        '7'
    } else if d == 8 {
        '8'
    } else {
        '9'
    }
}

/// The value of a decimal digit character, or -1 for any other character.
pub open spec fn digit_val(c: char) -> int {
    if c == '0' {
        0
    } else if c == '1' {
        1
    } else if c == '2' {
        2
    } else if c == '3' {
        3
    } else if c == '4' {
        4
    } else if c == '5' {
        5
    } else if c == '6' {
        6
    } else if c == '7' {
        7
    } else if c == '8' {
        8
    } else if c == '9' {
        9
    } else {
        -1
    }
}

/// A byte written in canonical decimal: one to three digits, no leading zero.
pub open spec fn byte_text(b: u8) -> Seq<char> {
    if b < 10 {
        seq![digit_char(b as int)]
    } else if b < 100 {
        seq![digit_char(b as int / 10), digit_char(b as int % 10)]
    } else {
        seq![
            digit_char(b as int / 100),
            digit_char((b as int / 10) % 10),
            digit_char(b as int % 10),
        ]
    }
}

/// A byte string written as comma-separated decimal numbers.
pub open spec fn list_text(bs: Seq<u8>) -> Seq<char>
    decreases bs.len(),
{
    if bs.len() == 0 {
        Seq::empty()
    } else if bs.len() == 1 {
        byte_text(bs[0])
    } else {
        byte_text(bs[0]) + seq![','] + list_text(bs.drop_first())
    }
}

/// The text `{"nonce":[`.
pub open spec fn nonce_prefix() -> Seq<char> {
    seq!['{', '"', 'n', 'o', 'n', 'c', 'e', '"', ':', '[']
}

/// The text `],"ciphertext":[`.
pub open spec fn ct_infix() -> Seq<char> {
    seq![']', ',', '"', 'c', 'i', 'p', 'h', 'e', 'r', 't', 'e', 'x', 't', '"', ':', '[']
}

/// The text `,"ciphertext":[`, what remains of the infix once a list parse has
/// consumed the closing bracket of the nonce list.
pub open spec fn ct_mid() -> Seq<char> {
    seq![',', '"', 'c', 'i', 'p', 'h', 'e', 'r', 't', 'e', 'x', 't', '"', ':', '[']
}

/// The text `]}`.
pub open spec fn env_suffix() -> Seq<char> {
    seq![']', '}']
}

/// The full envelope text for a nonce and a ciphertext.
pub open spec fn envelope_text(nonce: Seq<u8>, ct: Seq<u8>) -> Seq<char> {
    nonce_prefix() + list_text(nonce) + ct_infix() + list_text(ct) + env_suffix()
}

/// Read one canonically written byte starting at `i`: its value and the index
/// just past its digits.
pub open spec fn parse_byte_at(s: Seq<char>, i: int) -> Option<(u8, int)> {
    if 0 <= i < s.len() && digit_val(s[i]) >= 0 {
        let d0 = digit_val(s[i]);
        if i + 1 < s.len() && digit_val(s[i + 1]) >= 0 {
            if d0 == 0 {
                None
            } else {
                let d1 = digit_val(s[i + 1]);
                if i + 2 < s.len() && digit_val(s[i + 2]) >= 0 {
                    let d2 = digit_val(s[i + 2]);
                    if i + 3 < s.len() && digit_val(s[i + 3]) >= 0 {
                        None
                    } else if d0 * 100 + d1 * 10 + d2 <= 255 {
                        Some(((d0 * 100 + d1 * 10 + d2) as u8, i + 3))
                    } else {
                        None
                    }
                } else {
                    Some(((d0 * 10 + d1) as u8, i + 2))
                }
            }
        } else {
            Some((d0 as u8, i + 1))
        }
    } else {
        None
    }
}

/// Read a byte list starting at `i` up to and including its closing `]`:
/// the bytes and the index just past the bracket.
pub open spec fn parse_list_at(s: Seq<char>, i: int) -> Option<(Seq<u8>, int)>
    decreases s.len() - i,
{
    if !(0 <= i < s.len()) {
        None
    } else if s[i] == ']' {
        Some((Seq::empty(), i + 1))
    } else {
        match parse_byte_at(s, i) {
            None => None,
            Some((b, j)) => if !(i < j && j <= s.len()) {
                None
            } else if j < s.len() && s[j] == ',' {
                match parse_list_at(s, j + 1) {
                    None => None,
                    Some((bs, k)) => Some((seq![b] + bs, k)),
                }
            } else if j < s.len() && s[j] == ']' {
                Some((seq![b], j + 1))
            } else {
                None
            },
        }
    }
}

/// Parse a whole envelope: the nonce bytes and the ciphertext bytes.
pub open spec fn parse_envelope_spec(s: Seq<char>) -> Option<(Seq<u8>, Seq<u8>)> {
    if s.len() < 10 || s.subrange(0, 10) != nonce_prefix() {
        None
    } else {
        match parse_list_at(s, 10) {
            None => None,
            Some((n, j)) => if !(j + 15 <= s.len() && s.subrange(j, j + 15) == ct_mid()) {
                None
            } else {
                match parse_list_at(s, j + 15) {
                    None => None,
                    Some((c, k)) => if k < s.len() && s[k] == '}' && k + 1 == s.len() {
                        Some((n, c))
                    } else {
                        None
                    },
                }
            },
        }
    }
}

proof fn lemma_digit_roundtrip(d: int)
    requires
        0 <= d < 10,
    ensures
        digit_val(digit_char(d)) == d,
{
}

/// Every character of a canonical byte text is a digit, and there are 1 to 3
/// of them.
proof fn lemma_byte_text_digits(b: u8)
    ensures
        1 <= byte_text(b).len() <= 3,
        forall|k: int| 0 <= k < byte_text(b).len() ==> #[trigger] digit_val(byte_text(b)[k]) >= 0,
{
    if b < 10 {
        lemma_digit_roundtrip(b as int);
    } else if b < 100 {
        lemma_digit_roundtrip(b as int / 10);
        lemma_digit_roundtrip(b as int % 10);
    } else {
        lemma_digit_roundtrip(b as int / 100);
        lemma_digit_roundtrip((b as int / 10) % 10);
        lemma_digit_roundtrip(b as int % 10);
    }
}

/// A canonical byte text followed by a non-digit parses back to the byte.
proof fn lemma_parse_byte_text(s: Seq<char>, i: int, b: u8)
    requires
        0 <= i,
        i + byte_text(b).len() < s.len(),
        s.subrange(i, i + byte_text(b).len()) == byte_text(b),
        digit_val(s[i + byte_text(b).len()]) < 0,
    ensures
        parse_byte_at(s, i) == Some((b, i + byte_text(b).len())),
{
    let t = byte_text(b);
    let m = t.len() as int;
    assert(forall|k: int| 0 <= k < m ==> s[i + k] == #[trigger] t[k]) by {
        assert(forall|k: int| 0 <= k < m ==> s.subrange(i, i + m)[k] == #[trigger] t[k]);
    }
    lemma_byte_text_digits(b);
    if b < 10 {
        lemma_digit_roundtrip(b as int);
        assert(s[i] == t[0]);
        assert(digit_val(s[i]) == b as int);
    } else if b < 100 {
        let d0 = b as int / 10;
        let d1 = b as int % 10;
        lemma_digit_roundtrip(d0);
        lemma_digit_roundtrip(d1);
        assert(s[i] == t[0]);
        assert(s[i + 1] == t[1]);
        assert(digit_val(s[i]) == d0);
        assert(digit_val(s[i + 1]) == d1);
        assert(d0 >= 1);
        assert(d0 * 10 + d1 == b as int);
    } else {
        let d0 = b as int / 100;
        let d1 = (b as int / 10) % 10;
        let d2 = b as int % 10;
        lemma_digit_roundtrip(d0);
        lemma_digit_roundtrip(d1);
        lemma_digit_roundtrip(d2);
        assert(s[i] == t[0]);
        assert(s[i + 1] == t[1]);
        assert(s[i + 2] == t[2]);
        assert(digit_val(s[i]) == d0);
        assert(digit_val(s[i + 1]) == d1);
        assert(digit_val(s[i + 2]) == d2);
        assert(d0 >= 1);
        assert(d0 * 100 + d1 * 10 + d2 == b as int) by {
            assert(b as int == (b as int / 10) * 10 + b as int % 10);
            assert(b as int / 10 == (b as int / 10 / 10) * 10 + (b as int / 10) % 10);
            assert(b as int / 10 / 10 == b as int / 100) by (nonlinear_arith);
        }
    }
}

/// A byte-list text followed by `]` parses back to the byte string, consuming
/// the bracket.
proof fn lemma_parse_list_text(s: Seq<char>, i: int, bs: Seq<u8>)
    requires
        0 <= i,
        i + list_text(bs).len() < s.len(),
        s.subrange(i, i + list_text(bs).len()) == list_text(bs),
        s[i + list_text(bs).len()] == ']',
    ensures
        parse_list_at(s, i) == Some((bs, i + list_text(bs).len() + 1)),
    decreases bs.len(),
{
    let t = list_text(bs);
    let m = t.len() as int;
    assert(forall|k: int| 0 <= k < m ==> s[i + k] == #[trigger] t[k]) by {
        assert(forall|k: int| 0 <= k < m ==> s.subrange(i, i + m)[k] == #[trigger] t[k]);
    }
    if bs.len() == 0 {
        assert(s[i] == ']');
    } else if bs.len() == 1 {
        assert(t == byte_text(bs[0]));
        lemma_byte_text_digits(bs[0]);
        assert(s[i] == t[0]);
        assert(digit_val(t[0]) >= 0);
        assert(s[i] != ']');
        lemma_parse_byte_text(s, i, bs[0]);
        assert(seq![bs[0]] =~= bs);
    } else {
        let bt = byte_text(bs[0]);
        let bm = bt.len() as int;
        let rest = bs.drop_first();
        assert(t == bt + seq![','] + list_text(rest));
        assert(forall|k: int| 0 <= k < bm ==> t[k] == #[trigger] bt[k]);
        lemma_byte_text_digits(bs[0]);
        assert(s[i] == t[0]);
        assert(t[0] == bt[0]);
        assert(digit_val(bt[0]) >= 0);
        assert(s[i] != ']');
        assert(s.subrange(i, i + bm) =~= bt);
        assert(s[i + bm] == t[bm]);
        assert(t[bm] == ',');
        assert(digit_val(',') < 0);
        lemma_parse_byte_text(s, i, bs[0]);
        assert(parse_byte_at(s, i) == Some((bs[0], i + bm)));
        let i2 = i + bm + 1;
        let rt = list_text(rest);
        assert(forall|k: int| 0 <= k < rt.len() ==> t[bm + 1 + k] == #[trigger] rt[k]);
        assert(s.subrange(i2, i2 + rt.len()) =~= rt);
        assert(i2 + rt.len() == i + m);
        assert(s[i2 + rt.len()] == ']');
        lemma_parse_list_text(s, i2, rest);
        assert(parse_list_at(s, i2) == Some((rest, i + m + 1)));
        assert(seq![bs[0]] + rest =~= bs);
    }
}

/// Parsing the envelope text of any nonce and ciphertext gives them back.
pub proof fn lemma_parse_envelope_text(n: Seq<u8>, c: Seq<u8>)
    ensures
        parse_envelope_spec(envelope_text(n, c)) == Some((n, c)),
{
    let s = envelope_text(n, c);
    let p = nonce_prefix();
    let ln = list_text(n).len() as int;
    let lc = list_text(c).len() as int;
    assert(ct_infix() =~= seq![']'] + ct_mid());
    assert(s.len() == 10 + ln + 16 + lc + 2);
    assert(s.subrange(0, 10) =~= p);
    // the nonce list sits at 10 and is followed by the `]` that opens the infix
    assert(s.subrange(10, 10 + ln) =~= list_text(n));
    assert(s[10 + ln] == ct_infix()[0]);
    lemma_parse_list_text(s, 10, n);
    let j = 10 + ln + 1;
    assert(parse_list_at(s, 10) == Some((n, j)));
    assert(s.subrange(j, j + 15) =~= ct_mid());
    // the ciphertext list follows the infix and is closed by the `]` of the suffix
    let i2 = j + 15;
    assert(s.subrange(i2, i2 + lc) =~= list_text(c));
    assert(s[i2 + lc] == env_suffix()[0]);
    lemma_parse_list_text(s, i2, c);
    let k = i2 + lc + 1;
    assert(parse_list_at(s, i2) == Some((c, k)));
    assert(s[k] == env_suffix()[1]);
    assert(s[k] == '}');
    assert(k + 1 == s.len());
}

fn digit_str(d: u8) -> (r: &'static str)
    requires
        d < 10,
    ensures
        r@ == seq![digit_char(d as int)],
{
    if d == 0 {
        proof {
            reveal_strlit("0");
        }
        assert("0"@ =~= seq![digit_char(0)]);
        "0"
    } else if d == 1 {
        proof {
            reveal_strlit("1");
        }
        assert("1"@ =~= seq![digit_char(1)]);
        "1"
    } else if d == 2 {
        proof {
            reveal_strlit("2");
        }
        assert("2"@ =~= seq![digit_char(2)]);
        "2"
    } else if d == 3 {
        proof {
            reveal_strlit("3");
        }
        assert("3"@ =~= seq![digit_char(3)]);
        "3"
    } else if d == 4 {
        proof {
            reveal_strlit("4");
        }
        assert("4"@ =~= seq![digit_char(4)]);
        "4"
    } else if d == 5 {
        proof {
            reveal_strlit("5");
        }
        assert("5"@ =~= seq![digit_char(5)]);
        "5"
    } else if d == 6 {
        proof {
            reveal_strlit("6");
        }
        assert("6"@ =~= seq![digit_char(6)]);
        "6"
    } else if d == 7 {
        proof {
            reveal_strlit("7");
        }
        assert("7"@ =~= seq![digit_char(7)]);
        "7"
    } else if d == 8 {
        proof {
            reveal_strlit("8");
        }
        assert("8"@ =~= seq![digit_char(8)]);
        "8"
    } else {
        proof {
            reveal_strlit("9");
        }
        assert("9"@ =~= seq![digit_char(9)]);
        "9"
    }
}

fn push_byte_text(out: &mut String, b: u8)
    ensures
        final(out)@ == old(out)@ + byte_text(b),
{
    if b < 10 {
        out.append(digit_str(b));
        assert(final(out)@ =~= old(out)@ + byte_text(b));
    } else if b < 100 {
        out.append(digit_str(b / 10));
        out.append(digit_str(b % 10));
        assert(final(out)@ =~= old(out)@ + byte_text(b));
    } else {
        out.append(digit_str(b / 100));
        out.append(digit_str((b / 10) % 10));
        out.append(digit_str(b % 10));
        assert(final(out)@ =~= old(out)@ + byte_text(b));
    }
}

/// `list_text` grows at the right end one byte at a time.
proof fn lemma_list_text_push(p: Seq<u8>, b: u8)
    ensures
        list_text(p.push(b)) == if p.len() == 0 {
            byte_text(b)
        } else {
            list_text(p) + seq![','] + byte_text(b)
        },
    decreases p.len(),
{
    if p.len() == 0 {
        assert(p.push(b)[0] == b);
        assert(list_text(p.push(b)) == byte_text(b));
    } else {
        let q = p.push(b);
        assert(q.len() >= 2);
        assert(q[0] == p[0]);
        assert(q.drop_first() =~= p.drop_first().push(b));
        lemma_list_text_push(p.drop_first(), b);
        if p.len() == 1 {
            assert(p.drop_first().len() == 0);
            assert(list_text(q) == byte_text(p[0]) + seq![','] + byte_text(b));
            assert(list_text(p) == byte_text(p[0]));
            assert(list_text(p) + seq![','] + byte_text(b) =~= list_text(q));
        } else {
            assert(list_text(q) == byte_text(q[0]) + seq![','] + list_text(q.drop_first()));
            assert(list_text(p) + seq![','] + byte_text(b) =~= list_text(q));
        }
    }
}

fn push_list_text(out: &mut String, bs: &Vec<u8>)
    ensures
        final(out)@ == old(out)@ + list_text(bs@),
{
    let ghost base: Seq<char> = out@;
    let n = bs.len();
    let mut i: usize = 0;
    while i < n
        invariant
            n == bs@.len(),
            i <= n,
            out@ == base + list_text(bs@.take(i as int)),
        decreases n - i,
    {
        if i > 0 {
            out.append(",");
            proof {
                reveal_strlit(",");
                assert(","@ =~= seq![',']);
            }
        }
        push_byte_text(out, bs[i]);
        proof {
            lemma_list_text_push(bs@.take(i as int), bs@[i as int]);
            assert(bs@.take(i as int).push(bs@[i as int]) =~= bs@.take(i as int + 1));
            if i == 0 {
                assert(out@ =~= base + list_text(bs@.take(i as int + 1)));
            } else {
                assert(out@ =~= base + list_text(bs@.take(i as int + 1)));
            }
        }
        i = i + 1;
    }
    proof {
        assert(bs@.take(n as int) =~= bs@);
    }
}

/// Write the envelope for a nonce and a ciphertext.
pub fn encode_envelope(nonce: &Vec<u8>, ct: &Vec<u8>) -> (r: String)
    ensures
        r@ == envelope_text(nonce@, ct@),
        parse_envelope_spec(r@) == Some((nonce@, ct@)),
{
    let mut out = String::new();
    out.append("{\"nonce\":[");
    proof {
        reveal_strlit("{\"nonce\":[");
        assert("{\"nonce\":["@ =~= nonce_prefix());
    }
    push_list_text(&mut out, nonce);
    out.append("],\"ciphertext\":[");
    proof {
        reveal_strlit("],\"ciphertext\":[");
        assert("],\"ciphertext\":["@ =~= ct_infix());
    }
    push_list_text(&mut out, ct);
    out.append("]}");
    proof {
        reveal_strlit("]}");
        assert("]}"@ =~= env_suffix());
        assert(out@ =~= envelope_text(nonce@, ct@));
        lemma_parse_envelope_text(nonce@, ct@);
    }
    out
}

fn digit_of(c: char) -> (r: i16)
    ensures
        r as int == digit_val(c),
{
    if c == '0' {
        0
    } else if c == '1' {
        1
    } else if c == '2' {
        2
    } else if c == '3' {
        3
    } else if c == '4' {
        4
    } else if c == '5' {
        5
    } else if c == '6' {
        6
    } else if c == '7' {
        7
    } else if c == '8' {
        8
    } else if c == '9' {
        9
    } else {
        -1
    }
}

fn parse_byte(s: &str, len: usize, i: usize) -> (r: Option<(u8, usize)>)
    requires
        len == s@.len(),
    ensures
        (match r {
            None => parse_byte_at(s@, i as int) is None,
            Some((b, j)) => parse_byte_at(s@, i as int) == Some((b, j as int)) && i < j <= len,
        }),
{
    if i >= len {
        return None;
    }
    let d0 = digit_of(s.get_char(i));
    if d0 < 0 {
        return None;
    }
    if i + 1 >= len || digit_of(s.get_char(i + 1)) < 0 {
        return Some((d0 as u8, i + 1));
    }
    if d0 == 0 {
        return None;
    }
    let d1 = digit_of(s.get_char(i + 1));
    if i + 2 >= len || digit_of(s.get_char(i + 2)) < 0 {
        return Some(((d0 * 10 + d1) as u8, i + 2));
    }
    let d2 = digit_of(s.get_char(i + 2));
    if i + 3 < len && digit_of(s.get_char(i + 3)) >= 0 {
        return None;
    }
    let v = d0 * 100 + d1 * 10 + d2;
    if v <= 255 {
        Some((v as u8, i + 3))
    } else {
        None
    }
}

fn parse_list(s: &str, len: usize, start: usize) -> (r: Option<(Vec<u8>, usize)>)
    requires
        len == s@.len(),
    ensures
        (match r {
            None => parse_list_at(s@, start as int) is None,
            Some((bs, j)) => parse_list_at(s@, start as int) == Some((bs@, j as int)) && j
                <= len,
        }),
{
    let mut acc: Vec<u8> = Vec::new();
    let mut cur: usize = start;
    proof {
        match parse_list_at(s@, start as int) {
            None => {},
            Some((bs, k)) => {
                assert(acc@ + bs =~= bs);
            },
        }
    }
    loop
        invariant
            len == s@.len(),
            (match parse_list_at(s@, cur as int) {
                None => parse_list_at(s@, start as int) is None,
                Some((bs, k)) => parse_list_at(s@, start as int) == Some((acc@ + bs, k)),
            }),
        decreases len - cur,
    {
        if cur >= len {
            return None;
        }
        let ch = s.get_char(cur);
        if ch == ']' {
            proof {
                assert(parse_list_at(s@, cur as int) == Some(
                    (Seq::<u8>::empty(), cur as int + 1),
                ));
                assert(acc@ + Seq::<u8>::empty() =~= acc@);
            }
            return Some((acc, cur + 1));
        }
        match parse_byte(s, len, cur) {
            None => {
                return None;
            },
            Some((b, j)) => {
                if j < len && s.get_char(j) == ',' {
                    let ghost acc0 = acc@;
                    acc.push(b);
                    proof {
                        match parse_list_at(s@, j as int + 1) {
                            None => {},
                            Some((bs2, k)) => {
                                assert(parse_list_at(s@, cur as int) == Some(
                                    (seq![b] + bs2, k),
                                ));
                                assert(acc0 + (seq![b] + bs2) =~= acc@ + bs2);
                            },
                        }
                    }
                    cur = j + 1;
                } else if j < len && s.get_char(j) == ']' {
                    proof {
                        assert(parse_list_at(s@, cur as int) == Some((seq![b], j as int + 1)));
                    }
                    let ghost acc0 = acc@;
                    acc.push(b);
                    proof {
                        assert(acc0 + seq![b] =~= acc@);
                    }
                    return Some((acc, j + 1));
                } else {
                    return None;
                }
            },
        }
    }
}

fn match_at(s: &str, len: usize, i: usize, pat: &str, plen: usize) -> (r: bool)
    requires
        len == s@.len(),
        plen == pat@.len(),
    ensures
        r == (i + plen <= len && s@.subrange(i as int, i as int + plen as int) == pat@),
{
    if plen > len || i > len - plen {
        return false;
    }
    let mut j: usize = 0;
    while j < plen
        invariant
            len == s@.len(),
            plen == pat@.len(),
            i + plen <= len,
            j <= plen,
            forall|k: int| 0 <= k < j ==> s@[i + k] == #[trigger] pat@[k],
        decreases plen - j,
    {
        if s.get_char(i + j) != pat.get_char(j) {
            proof {
                assert(s@.subrange(i as int, i as int + plen as int)[j as int] != pat@[j as int]);
            }
            return false;
        }
        j = j + 1;
    }
    proof {
        assert(s@.subrange(i as int, i as int + plen as int) =~= pat@);
    }
    true
}

/// Parse an envelope into its nonce bytes and ciphertext bytes.
pub fn parse_envelope(s: &str) -> (r: Option<(Vec<u8>, Vec<u8>)>)
    ensures
        (match r {
            None => parse_envelope_spec(s@) is None,
            Some((n, c)) => parse_envelope_spec(s@) == Some((n@, c@)),
        }),
{
    let len = s.unicode_len();
    proof {
        reveal_strlit("{\"nonce\":[");
        assert("{\"nonce\":["@ =~= nonce_prefix());
        reveal_strlit(",\"ciphertext\":[");
        assert(",\"ciphertext\":["@ =~= ct_mid());
    }
    if !match_at(s, len, 0, "{\"nonce\":[", 10) {
        return None;
    }
    match parse_list(s, len, 10) {
        None => None,
        Some((n, j)) => {
            if !match_at(s, len, j, ",\"ciphertext\":[", 15) {
                return None;
            }
            match parse_list(s, len, j + 15) {
                None => None,
                Some((c, k)) => {
                    if k < len && s.get_char(k) == '}' && k + 1 == len {
                        Some((n, c))
                    } else {
                        None
                    }
                },
            }
        },
    }
}

} // verus!
