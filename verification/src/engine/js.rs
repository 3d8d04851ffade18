//! The helpers that JS overrides call into: base64 codecs, the embedded
//! `fetch` (URL parsing, request text, response parsing) and the decisions
//! taken around a script run.
use crate::text::{
    chars_of, concat2, copy_string, find_char, find_sub, index_of_char, index_of_sub, is_ascii_ws_byte,
    last_index_of_char, lower_seq, lower_string, push_char, push_range, push_str, rfind_char,
    str_eq, string_from_range,
};
use vstd::prelude::*;
use vstd::utf8::{decode_utf8, encode_utf8, valid_utf8};

verus! {

// ---------------------------------------------------------------------------
// Base64
// ---------------------------------------------------------------------------

/// The base64 alphabet: `A-Z a-z 0-9 + /`.
pub open spec fn b64_char(v: int) -> char {
    if v < 26 {
        (65 + v) as char
    } else if v < 52 {
        (97 + v - 26) as char
    } else if v < 62 {
        (48 + v - 52) as char
    } else if v == 62 {
        '+'
    } else {
        '/'
    }
}

/// One group of one to three bytes as four base64 characters, padded with `=`.
pub open spec fn b64_group(d: Seq<u8>) -> Seq<char> {
    let a = d[0] as int;
    let b = if d.len() > 1 {
        d[1] as int
    } else {
        0
    };
    let c = if d.len() > 2 {
        d[2] as int
    } else {
        0
    };
    seq![
        b64_char(a / 4),
        b64_char((a % 4) * 16 + b / 16),
        if d.len() > 1 {
            b64_char((b % 16) * 4 + c / 64)
        } else {
            '='
        },
        if d.len() > 2 {
            b64_char(c % 64)
        } else {
            '='
        },
    ]
}

/// Standard padded base64 of `d`.
pub open spec fn base64_encode(d: Seq<u8>) -> Seq<char>
    decreases d.len(),
{
    if d.len() == 0 {
        seq![]
    } else if d.len() <= 3 {
        b64_group(d)
    } else {
        b64_group(d.take(3)) + base64_encode(d.skip(3))
    }
}

/// The six-bit value of a base64 byte; `=` counts as zero.
pub open spec fn sextet(c: u8) -> Option<int> {
    if 65 <= c <= 90 {
        Some(c - 65)
    } else if 97 <= c <= 122 {
        Some(c - 97 + 26)
    } else if 48 <= c <= 57 {
        Some(c - 48 + 52)
    } else if c == 43 {
        Some(62)
    } else if c == 47 {
        Some(63)
    } else if c == 61 {
        Some(0)
    } else {
        None
    }
}

/// The first byte of `ch` that is no base64 byte.
pub open spec fn first_bad(ch: Seq<u8>) -> Option<u8>
    decreases ch.len(),
{
    if ch.len() == 0 {
        None
    } else if sextet(ch[0]) is None {
        Some(ch[0])
    } else {
        first_bad(ch.drop_first())
    }
}

/// The number of `=` bytes in `ch`.
pub open spec fn pad_count(ch: Seq<u8>) -> nat
    decreases ch.len(),
{
    if ch.len() == 0 {
        0
    } else {
        pad_count(ch.drop_first()) + if ch[0] == 61 {
            1nat
        } else {
            0nat
        }
    }
}

/// The bytes of one four-byte chunk, or the error for its first bad byte.
#[verifier::opaque]
pub open spec fn decode_chunk(ch: Seq<u8>) -> Result<Seq<u8>, Seq<char>> {
    match first_bad(ch) {
        Some(c) => Err("invalid base64 character: "@ + seq![c as char]),
        None => {
            let n = sextet(ch[0])->0 * 262144 + sextet(ch[1])->0 * 4096 + sextet(ch[2])->0 * 64
                + sextet(ch[3])->0;
            let p = pad_count(ch);
            Ok(
                seq![((n / 65536) % 256) as u8] + (if p < 2 {
                    seq![((n / 256) % 256) as u8]
                } else {
                    seq![]
                }) + (if p < 1 {
                    seq![(n % 256) as u8]
                } else {
                    seq![]
                }),
            )
        },
    }
}

/// The first `k` chunks of `s` decoded; the first bad chunk gives the error.
pub open spec fn decode_chunks(s: Seq<u8>, k: nat) -> Result<Seq<u8>, Seq<char>>
    decreases k,
{
    if k == 0 {
        Ok(seq![])
    } else {
        match decode_chunks(s, (k - 1) as nat) {
            Err(e) => Err(e),
            Ok(x) => match decode_chunk(s.subrange(4 * k - 4, (4 * k) as int)) {
                Err(e) => Err(e),
                Ok(y) => Ok(x + y),
            },
        }
    }
}

/// `bs` without ASCII whitespace.
pub open spec fn strip_ws(bs: Seq<u8>) -> Seq<u8>
    decreases bs.len(),
{
    if bs.len() == 0 {
        seq![]
    } else {
        strip_ws(bs.drop_last()) + if is_ascii_ws_byte(bs.last()) {
            seq![]
        } else {
            seq![bs.last()]
        }
    }
}

/// Base64 decoding of the bytes `bs`, whitespace ignored.
pub open spec fn base64_decode(bs: Seq<u8>) -> Result<Seq<u8>, Seq<char>> {
    let s = strip_ws(bs);
    match decode_chunks(s, s.len() / 4) {
        Err(e) => Err(e),
        Ok(x) => if s.len() % 4 != 0 {
            Err("invalid base64 padding"@)
        } else {
            Ok(x)
        },
    }
}

/// `String::from_utf8`. Trusted: it succeeds exactly on valid UTF-8 and then
/// holds the decoded text; the error's text is std's and is not stated.
#[verifier::external_body]
pub(crate) fn utf8_to_string(bytes: Vec<u8>) -> (r: Result<String, String>)
    ensures
        r is Ok <==> valid_utf8(bytes@),
        r matches Ok(s) ==> s@ == decode_utf8(bytes@),
{
    String::from_utf8(bytes).map_err(|err| err.to_string())
}

fn b64_char_of(v: u8) -> (r: char)
    requires
        v < 64,
    ensures
        r == b64_char(v as int),
{
    if v < 26 {
        (65 + v) as char
    } else if v < 52 {
        (97 + v - 26) as char
    } else if v < 62 {
        (48 + v - 52) as char
    } else if v == 62 {
        '+'
    } else {
        '/'
    }
}

/// Standard padded base64 of `data`.
pub fn base64_encode_string(data: &[u8]) -> (r: String)
    ensures
        r@ == base64_encode(data@),
{
    let mut encoded = String::new();
    let mut index: usize = 0;
    proof {
        assert(data@.skip(0) =~= data@);
    }
    while index < data.len()
        invariant
            index <= data.len(),
            encoded@ + base64_encode(data@.skip(index as int)) == base64_encode(data@),
        decreases data.len() - index,
    {
        let ghost rest = data@.skip(index as int);
        let ghost before = encoded@;
        let left = data.len() - index;
        let first = data[index];
        let second = if left > 1 {
            data[index + 1]
        } else {
            0
        };
        let third = if left > 2 {
            data[index + 2]
        } else {
            0
        };
        push_char(&mut encoded, b64_char_of(first / 4));
        push_char(&mut encoded, b64_char_of((first % 4) * 16 + second / 16));
        if left > 1 {
            push_char(&mut encoded, b64_char_of((second % 16) * 4 + third / 64));
        } else {
            push_char(&mut encoded, '=');
        }
        if left > 2 {
            push_char(&mut encoded, b64_char_of(third % 64));
        } else {
            push_char(&mut encoded, '=');
        }
        let step = if left >= 3 {
            3
        } else {
            left
        };
        proof {
            let g = if rest.len() <= 3 {
                rest
            } else {
                rest.take(3)
            };
            assert(g[0] == first);
            if rest.len() > 1 {
                assert(g[1] == second);
            }
            if rest.len() > 2 {
                assert(g[2] == third);
            }
            assert(encoded@ == before + b64_group(g));
            if rest.len() > 3 {
                assert(rest.skip(3) =~= data@.skip(index + 3));
            } else {
                assert(data@.skip(index + step) =~= Seq::<u8>::empty());
                assert(base64_encode(rest) == b64_group(rest));
            }
        }
        index = index + step;
    }
    proof {
        assert(data@.skip(index as int) =~= Seq::<u8>::empty());
    }
    encoded
}


fn sextet_of(c: u8) -> (r: Option<u8>)
    ensures
        r matches Some(v) ==> sextet(c) == Some(v as int) && v < 64,
        r is None ==> sextet(c) is None,
{
    if 65 <= c && c <= 90 {
        Some(c - 65)
    } else if 97 <= c && c <= 122 {
        Some(c - 97 + 26)
    } else if 48 <= c && c <= 57 {
        Some(c - 48 + 52)
    } else if c == 43 {
        Some(62)
    } else if c == 47 {
        Some(63)
    } else if c == 61 {
        Some(0)
    } else {
        None
    }
}

fn bad_char_message(c: u8) -> (r: String)
    ensures
        r@ == "invalid base64 character: "@ + seq![c as char],
{
    let mut m = crate::text::copy_string("invalid base64 character: ");
    push_char(&mut m, c as char);
    m
}

/// Decodes one four-byte chunk onto `bytes`.
pub fn decode_base64_chunk(chunk: &[u8; 4], bytes: &mut Vec<u8>) -> (r: Result<(), String>)
    ensures
        decode_chunk(chunk@) matches Ok(y) ==> r is Ok && final(bytes)@ == old(bytes)@ + y,
        decode_chunk(chunk@) matches Err(e) ==> r matches Err(m) && m@ == e,
{
    proof {
        reveal(decode_chunk);
        reveal_with_fuel(first_bad, 5);
        reveal_with_fuel(pad_count, 5);
        assert(chunk@.drop_first().drop_first().drop_first().drop_first().len() == 0);
    }
    let c0 = chunk[0];
    let c1 = chunk[1];
    let c2 = chunk[2];
    let c3 = chunk[3];
    let v0 = match sextet_of(c0) {
        Some(v) => v,
        None => {
            return Err(bad_char_message(c0));
        },
    };
    let v1 = match sextet_of(c1) {
        Some(v) => v,
        None => {
            return Err(bad_char_message(c1));
        },
    };
    let v2 = match sextet_of(c2) {
        Some(v) => v,
        None => {
            return Err(bad_char_message(c2));
        },
    };
    let v3 = match sextet_of(c3) {
        Some(v) => v,
        None => {
            return Err(bad_char_message(c3));
        },
    };
    let mut padding: usize = 0;
    if c0 == 61 {
        padding = padding + 1;
    }
    if c1 == 61 {
        padding = padding + 1;
    }
    if c2 == 61 {
        padding = padding + 1;
    }
    if c3 == 61 {
        padding = padding + 1;
    }
    let combined: u32 = (v0 as u32) * 262144 + (v1 as u32) * 4096 + (v2 as u32) * 64 + (v3 as u32);
    let ghost before = bytes@;
    bytes.push(((combined / 65536) % 256) as u8);
    if padding < 2 {
        bytes.push(((combined / 256) % 256) as u8);
    }
    if padding < 1 {
        bytes.push((combined % 256) as u8);
    }
    proof {
        assert(pad_count(chunk@) == padding);
    }
    Ok(())
}

proof fn lemma_strip_ws_prefix(bs: Seq<u8>, i: int, j: int)
    requires
        0 <= i <= j <= bs.len(),
    ensures
        strip_ws(bs.take(i)).is_prefix_of(strip_ws(bs.take(j))),
    decreases j - i,
{
    if i < j {
        lemma_strip_ws_prefix(bs, i, j - 1);
        assert(bs.take(j).drop_last() =~= bs.take(j - 1));
    }
}

proof fn lemma_chunks_prefix(s: Seq<u8>, t: Seq<u8>, k: nat)
    requires
        s.is_prefix_of(t),
        4 * k <= s.len(),
    ensures
        decode_chunks(s, k) == decode_chunks(t, k),
    decreases k,
{
    if k > 0 {
        lemma_chunks_prefix(s, t, (k - 1) as nat);
        assert(s.subrange(4 * k - 4, (4 * k) as int) =~= t.subrange(4 * k - 4, (4 * k) as int));
    }
}

proof fn lemma_chunks_step(s: Seq<u8>, k: nat, x: Seq<u8>)
    requires
        decode_chunks(s, k) == Ok::<Seq<u8>, Seq<char>>(x),
    ensures
        decode_chunk(s.subrange((4 * k) as int, (4 * k + 4) as int)) matches Ok(y) ==> decode_chunks(s, k + 1) == Ok::<Seq<u8>, Seq<char>>(x + y),
        decode_chunk(s.subrange((4 * k) as int, (4 * k + 4) as int)) matches Err(e) ==> decode_chunks(s, k + 1) == Err::<Seq<u8>, Seq<char>>(e),
{
}

proof fn lemma_chunks_err(s: Seq<u8>, k: nat, n: nat)
    requires
        k <= n,
        decode_chunks(s, k) is Err,
    ensures
        decode_chunks(s, n) == decode_chunks(s, k),
    decreases n,
{
    if k < n {
        lemma_chunks_err(s, k, (n - 1) as nat);
    }
}

fn strip_ascii_ws(bs: &[u8]) -> (r: Vec<u8>)
    ensures
        r@ == strip_ws(bs@),
{
    let mut out: Vec<u8> = Vec::new();
    let mut i: usize = 0;
    assert(bs@.take(0) =~= Seq::<u8>::empty());
    while i < bs.len()
        invariant
            0 <= i <= bs.len(),
            out@ == strip_ws(bs@.take(i as int)),
        decreases bs.len() - i,
    {
        let b = bs[i];
        proof {
            assert(bs@.take(i + 1).drop_last() =~= bs@.take(i as int));
        }
        if !(b == 32 || b == 9 || b == 10 || b == 12 || b == 13) {
            out.push(b);
        }
        i = i + 1;
        assert(out@ =~= strip_ws(bs@.take(i as int)));
    }
    assert(bs@.take(bs@.len() as int) =~= bs@);
    out
}

/// Base64-decodes `content` (whitespace ignored) and reads the bytes as UTF-8.
pub fn base64_decode_string(content: &str) -> (r: Result<String, String>)
    ensures
        base64_decode(encode_utf8(content@)) matches Err(e) ==> r matches Err(m) && m@ == e,
        base64_decode(encode_utf8(content@)) matches Ok(x) ==> (r is Ok <==> valid_utf8(x)),
        base64_decode(encode_utf8(content@)) matches Ok(x) ==> (r matches Ok(s) ==> s@ == decode_utf8(x)),
{
    let bs = content.as_bytes();
    assert(bs@ == encode_utf8(content@));
    let clean = strip_ascii_ws(bs);
    let ghost full = clean@;
    let mut bytes: Vec<u8> = Vec::new();
    let mut k: usize = 0;
    let n = clean.len() / 4;
    while k < n
        invariant
            0 <= k <= n,
            n == full.len() / 4,
            full == clean@,
            full == strip_ws(encode_utf8(content@)),
            decode_chunks(full, k as nat) == Ok::<Seq<u8>, Seq<char>>(bytes@),
        decreases n - k,
    {
        assert(4 * k + 4 <= clean.len()) by (nonlinear_arith)
            requires
                k < n,
                n == clean.len() / 4,
        ;
        let chunk: [u8; 4] = [clean[4 * k], clean[4 * k + 1], clean[4 * k + 2], clean[4 * k + 3]];
        assert(chunk@ =~= full.subrange((4 * k) as int, (4 * k + 4) as int));
        let ghost before = bytes@;
        match decode_base64_chunk(&chunk, &mut bytes) {
            Ok(()) => {
                proof {
                    lemma_chunks_step(full, k as nat, before);
                }
            },
            Err(m) => {
                proof {
                    lemma_chunks_step(full, k as nat, before);
                    lemma_chunks_err(full, (k + 1) as nat, n as nat);
                }
                return Err(m);
            },
        }
        k = k + 1;
    }
    if clean.len() % 4 != 0 {
        return Err(crate::text::copy_string("invalid base64 padding"));
    }
    utf8_to_string(bytes)
}


// ---------------------------------------------------------------------------
// Base64 round trip
// ---------------------------------------------------------------------------

/// The bytes of an ASCII text.
pub open spec fn ascii_bytes(cs: Seq<char>) -> Seq<u8> {
    Seq::new(cs.len(), |i: int| cs[i] as u8)
}

proof fn lemma_b64_char(v: int)
    requires
        0 <= v < 64,
    ensures
        sextet(b64_char(v) as u8) == Some(v),
        (b64_char(v) as u8) != 61,
        '\0' <= b64_char(v) <= '\u{7f}',
        !is_ascii_ws_byte(b64_char(v) as u8),
{
}

proof fn lemma_group_arith(a: int, b: int, c: int)
    requires
        0 <= a < 256,
        0 <= b < 256,
        0 <= c < 256,
    ensures
        ({
            let n = (a / 4) * 262144 + ((a % 4) * 16 + b / 16) * 4096 + ((b % 16) * 4 + c / 64) * 64 + c % 64;
            (n / 65536) % 256 == a && (n / 256) % 256 == b && n % 256 == c
        }),
        ({
            let n = (a / 4) * 262144 + ((a % 4) * 16 + b / 16) * 4096 + ((b % 16) * 4 + c / 64) * 64;
            c == 0 ==> (n / 65536) % 256 == a && (n / 256) % 256 == b
        }),
        ({
            let n = (a / 4) * 262144 + ((a % 4) * 16 + b / 16) * 4096;
            b == 0 && c == 0 ==> (n / 65536) % 256 == a
        }),
{
    let n = (a / 4) * 262144 + ((a % 4) * 16 + b / 16) * 4096 + ((b % 16) * 4 + c / 64) * 64 + c % 64;
    assert(n == a * 65536 + b * 256 + c) by (nonlinear_arith)
        requires
            0 <= a < 256,
            0 <= b < 256,
            0 <= c < 256,
            n == (a / 4) * 262144 + ((a % 4) * 16 + b / 16) * 4096 + ((b % 16) * 4 + c / 64) * 64 + c % 64,
    ;
    assert((n / 65536) % 256 == a && (n / 256) % 256 == b && n % 256 == c) by (nonlinear_arith)
        requires
            0 <= a < 256,
            0 <= b < 256,
            0 <= c < 256,
            n == a * 65536 + b * 256 + c,
    ;
}

proof fn lemma_group_decodes(g: Seq<u8>)
    requires
        1 <= g.len() <= 3,
    ensures
        decode_chunk(ascii_bytes(b64_group(g))) == Ok::<Seq<u8>, Seq<char>>(g),
        is_ascii_chars_b64(b64_group(g)),
{
    reveal(decode_chunk);
    reveal_with_fuel(first_bad, 5);
    reveal_with_fuel(pad_count, 5);
    let a = g[0] as int;
    let b = if g.len() > 1 {
        g[1] as int
    } else {
        0
    };
    let c = if g.len() > 2 {
        g[2] as int
    } else {
        0
    };
    let e = b64_group(g);
    let ch = ascii_bytes(e);
    lemma_b64_char(a / 4);
    lemma_b64_char((a % 4) * 16 + b / 16);
    lemma_b64_char((b % 16) * 4 + c / 64);
    lemma_b64_char(c % 64);
    lemma_group_arith(a, b, c);
    assert(ch.drop_first().drop_first().drop_first().drop_first().len() == 0);
    if g.len() == 1 {
        assert(decode_chunk(ch) == Ok::<Seq<u8>, Seq<char>>(seq![g[0]]));
        assert(g =~= seq![g[0]]);
    } else if g.len() == 2 {
        assert(decode_chunk(ch) == Ok::<Seq<u8>, Seq<char>>(seq![g[0]] + seq![g[1]]));
        assert(g =~= seq![g[0]] + seq![g[1]]);
    } else {
        assert(decode_chunk(ch) == Ok::<Seq<u8>, Seq<char>>(seq![g[0]] + seq![g[1]] + seq![g[2]]));
        assert(g =~= seq![g[0]] + seq![g[1]] + seq![g[2]]);
    }
}

/// Every character is a base64 character or `=`.
pub open spec fn is_ascii_chars_b64(cs: Seq<char>) -> bool {
    forall|i: int|
        0 <= i < cs.len() ==> '\0' <= #[trigger] cs[i] <= '\u{7f}' && !is_ascii_ws_byte(cs[i] as u8)
}

proof fn lemma_chunks_append(a: Seq<u8>, b: Seq<u8>, ka: nat, kb: nat, x: Seq<u8>, y: Seq<u8>)
    requires
        a.len() == 4 * ka,
        4 * kb <= b.len(),
        decode_chunks(a, ka) == Ok::<Seq<u8>, Seq<char>>(x),
        decode_chunks(b, kb) == Ok::<Seq<u8>, Seq<char>>(y),
    ensures
        decode_chunks(a + b, ka + kb) == Ok::<Seq<u8>, Seq<char>>(x + y),
    decreases kb,
{
    if kb == 0 {
        lemma_chunks_prefix(a, a + b, ka);
        assert(x + y =~= x);
    } else {
        let y0 = decode_chunks(b, (kb - 1) as nat)->Ok_0;
        lemma_chunks_append(a, b, ka, (kb - 1) as nat, x, y0);
        assert((a + b).subrange(4 * (ka + kb) - 4, (4 * (ka + kb)) as int) =~= b.subrange(4 * kb - 4, (4 * kb) as int));
        let z = decode_chunk(b.subrange(4 * kb - 4, (4 * kb) as int))->Ok_0;
        assert(x + y0 + z =~= x + (y0 + z));
    }
}

proof fn lemma_one_chunk(ga: Seq<u8>, g: Seq<u8>)
    requires
        ga.len() == 4,
        decode_chunk(ga) == Ok::<Seq<u8>, Seq<char>>(g),
    ensures
        decode_chunks(ga, 1) == Ok::<Seq<u8>, Seq<char>>(g),
{
    assert(decode_chunks(ga, 0) == Ok::<Seq<u8>, Seq<char>>(seq![]));
    assert(ga.subrange(0, 4) =~= ga);
    assert(Seq::<u8>::empty() + g =~= g);
}

proof fn lemma_encode_decodes(d: Seq<u8>)
    ensures
        ascii_bytes(base64_encode(d)).len() == 4 * ((d.len() + 2) / 3),
        decode_chunks(ascii_bytes(base64_encode(d)), ((d.len() + 2) / 3) as nat) == Ok::<Seq<u8>, Seq<char>>(d),
        is_ascii_chars_b64(base64_encode(d)),
    decreases d.len(),
{
    if d.len() == 0 {
        assert(d =~= Seq::<u8>::empty());
        assert(ascii_bytes(base64_encode(d)) =~= Seq::<u8>::empty());
    } else if d.len() <= 3 {
        lemma_group_decodes(d);
        lemma_one_chunk(ascii_bytes(b64_group(d)), d);
        assert((d.len() + 2) / 3 == 1);
    } else {
        let g = d.take(3);
        let rest = d.skip(3);
        lemma_group_decodes(g);
        lemma_encode_decodes(rest);
        let ga = ascii_bytes(b64_group(g));
        let ra = ascii_bytes(base64_encode(rest));
        assert(ascii_bytes(base64_encode(d)) =~= ga + ra);
        lemma_one_chunk(ga, g);
        lemma_chunks_append(ga, ra, 1, ((rest.len() + 2) / 3) as nat, g, rest);
        assert(g + rest =~= d);
        assert(((d.len() + 2) / 3) == 1 + ((rest.len() + 2) / 3));
        assert forall|i: int| 0 <= i < base64_encode(d).len() implies '\0' <= #[trigger] base64_encode(d)[i] <= '\u{7f}'
            && !is_ascii_ws_byte(base64_encode(d)[i] as u8) by {
            if i < 4 {
                assert(base64_encode(d)[i] == b64_group(g)[i]);
            } else {
                assert(base64_encode(d)[i] == base64_encode(rest)[i - 4]);
            }
        }
    }
}

proof fn lemma_strip_ws_none(bs: Seq<u8>)
    requires
        forall|i: int| 0 <= i < bs.len() ==> !is_ascii_ws_byte(#[trigger] bs[i]),
    ensures
        strip_ws(bs) == bs,
    decreases bs.len(),
{
    if bs.len() > 0 {
        lemma_strip_ws_none(bs.drop_last());
        assert(bs.drop_last().push(bs.last()) =~= bs);
    }
}

/// Base64 round trip: decoding the encoding of any bytes gives those bytes back.
pub proof fn base64_round_trip(d: Seq<u8>)
    ensures
        base64_decode(encode_utf8(base64_encode(d))) == Ok::<Seq<u8>, Seq<char>>(d),
{
    lemma_encode_decodes(d);
    let e = base64_encode(d);
    assert(vstd::utf8::is_ascii_chars(e));
    vstd::utf8::is_ascii_chars_encode_utf8(e);
    assert(encode_utf8(e) =~= ascii_bytes(e));
    lemma_strip_ws_none(ascii_bytes(e));
    assert(ascii_bytes(e).len() % 4 == 0) by (nonlinear_arith)
        requires
            ascii_bytes(e).len() == 4 * ((d.len() + 2) / 3),
    ;
    assert(ascii_bytes(e).len() / 4 == (d.len() + 2) / 3) by (nonlinear_arith)
        requires
            ascii_bytes(e).len() == 4 * ((d.len() + 2) / 3),
    ;
}

proof fn lemma_strip_ws_clean(bs: Seq<u8>)
    ensures
        forall|i: int| 0 <= i < strip_ws(bs).len() ==> !is_ascii_ws_byte(#[trigger] strip_ws(bs)[i]),
    decreases bs.len(),
{
    if bs.len() > 0 {
        lemma_strip_ws_clean(bs.drop_last());
        let a = strip_ws(bs.drop_last());
        assert forall|i: int| 0 <= i < strip_ws(bs).len() implies !is_ascii_ws_byte(#[trigger] strip_ws(bs)[i]) by {
            if i < a.len() {
                assert(strip_ws(bs)[i] == a[i]);
            }
        }
    }
}

proof fn lemma_strip_ws_fixed(bs: Seq<u8>)
    requires
        forall|i: int| 0 <= i < bs.len() ==> !is_ascii_ws_byte(#[trigger] bs[i]),
    ensures
        strip_ws(bs) == bs,
    decreases bs.len(),
{
    if bs.len() > 0 {
        assert(!is_ascii_ws_byte(bs[bs.len() - 1]));
        lemma_strip_ws_fixed(bs.drop_last());
        assert(bs.drop_last().push(bs.last()) =~= bs);
    }
}

proof fn lemma_first_bad_some(ch: Seq<u8>, i: int)
    requires
        0 <= i < ch.len(),
        sextet(ch[i]) is None,
    ensures
        first_bad(ch) is Some,
    decreases ch.len(),
{
    if i > 0 && sextet(ch[0]) is Some {
        lemma_first_bad_some(ch.drop_first(), i - 1);
    }
}

proof fn lemma_bad_chunk(s: Seq<u8>, k: nat, j: int)
    requires
        0 <= j < k,
        4 * k <= s.len(),
        first_bad(s.subrange(4 * j, 4 * j + 4)) is Some,
    ensures
        decode_chunks(s, k) is Err,
    decreases k,
{
    if j < k - 1 {
        lemma_bad_chunk(s, (k - 1) as nat, j);
    } else {
        reveal(decode_chunk);
        assert(s.subrange(4 * k - 4, (4 * k) as int) == s.subrange(4 * j, 4 * j + 4));
    }
}

/// Base64 decoding ignores ASCII whitespace, and fails when the other bytes
/// are not a whole number of four-byte groups or include a byte outside
/// `A`-`Z`, `a`-`z`, `0`-`9`, `+`, `/` and `=`.
pub proof fn base64_decoding_ignores_whitespace(bs: Seq<u8>)
    ensures
        base64_decode(bs) == base64_decode(strip_ws(bs)),
        strip_ws(bs).len() % 4 != 0 ==> base64_decode(bs) is Err,
        (exists|i: int| 0 <= i < strip_ws(bs).len() && sextet(#[trigger] strip_ws(bs)[i]) is None) ==> base64_decode(
            bs,
        ) is Err,
{
    let s = strip_ws(bs);
    lemma_strip_ws_clean(bs);
    lemma_strip_ws_fixed(s);
    if exists|i: int| 0 <= i < s.len() && sextet(#[trigger] s[i]) is None {
        let i = choose|i: int| 0 <= i < s.len() && sextet(#[trigger] s[i]) is None;
        let k = s.len() / 4;
        if i < 4 * k {
            let j = i / 4;
            assert(0 <= j < k && 4 * j <= i < 4 * j + 4) by (nonlinear_arith)
                requires
                    0 <= i < 4 * k,
                    j == i / 4,
            ;
            let ch = s.subrange(4 * j, 4 * j + 4);
            assert(ch[i - 4 * j] == s[i]);
            lemma_first_bad_some(ch, i - 4 * j);
            assert(4 * k <= s.len()) by (nonlinear_arith)
                requires
                    k == s.len() / 4,
            ;
            lemma_bad_chunk(s, k as nat, j);
        } else {
            assert(s.len() % 4 != 0) by (nonlinear_arith)
                requires
                    i < s.len(),
                    i >= 4 * k,
                    k == s.len() / 4,
            ;
        }
    }
}

/// Text round trip: the base64 helper pair gives back any text it encoded.
pub proof fn base64_text_round_trip(s: Seq<char>)
    ensures
        base64_decode(encode_utf8(base64_encode(encode_utf8(s)))) == Ok::<Seq<u8>, Seq<char>>(encode_utf8(s)),
        valid_utf8(encode_utf8(s)),
        decode_utf8(encode_utf8(s)) == s,
{
    base64_round_trip(encode_utf8(s));
    vstd::utf8::encode_utf8_valid_utf8(s);
    vstd::utf8::encode_utf8_decode_utf8(s);
}


// ---------------------------------------------------------------------------
// Fetch URLs
// ---------------------------------------------------------------------------

/// A fetch URL split into its parts.
#[derive(Debug)]
pub struct ParsedFetchUrl {
    pub scheme: String,
    pub authority: String,
    pub host: String,
    pub port: u16,
    pub path_and_query: String,
}

/// The view of a [`ParsedFetchUrl`].
pub struct FetchUrlV {
    pub scheme: Seq<char>,
    pub authority: Seq<char>,
    pub host: Seq<char>,
    pub port: int,
    pub path_and_query: Seq<char>,
}

impl View for ParsedFetchUrl {
    type V = FetchUrlV;

    open spec fn view(&self) -> FetchUrlV {
        FetchUrlV {
            scheme: self.scheme@,
            authority: self.authority@,
            host: self.host@,
            port: self.port as int,
            path_and_query: self.path_and_query@,
        }
    }
}

/// What parsing a fetch URL comes to: its parts, an error message, or a
/// port text that is no `u16`.
pub enum UrlParse {
    Parsed(FetchUrlV),
    Failed(Seq<char>),
    BadPort(Seq<char>),
}

pub open spec fn is_digit(c: char) -> bool {
    '0' <= c <= '9'
}

/// The value of a string of decimal digits.
pub open spec fn dec_value(s: Seq<char>) -> int
    decreases s.len(),
{
    if s.len() == 0 {
        0
    } else {
        dec_value(s.drop_last()) * 10 + (s.last() as int - 48)
    }
}

/// `u16`'s `FromStr`: an optional `+`, then one or more decimal digits, of
/// value at most 65535.
pub open spec fn u16_text(s: Seq<char>) -> Option<int> {
    let d = if s.len() > 0 && s[0] == '+' {
        s.drop_first()
    } else {
        s
    };
    if d.len() > 0 && (forall|i: int| 0 <= i < d.len() ==> is_digit(#[trigger] d[i])) && dec_value(d)
        <= 65535 {
        Some(dec_value(d))
    } else {
        None
    }
}

/// `str::parse::<u16>`. Trusted: it succeeds exactly when [`u16_text`]
/// accepts the text, with that value; the error's text is std's and is not
/// stated.
#[verifier::external_body]
fn parse_u16(s: &str) -> (r: Result<u16, String>)
    ensures
        r matches Ok(n) ==> u16_text(s@) == Some(n as int),
        r is Err ==> u16_text(s@) is None,
{
    s.parse::<u16>().map_err(|err| err.to_string())
}

/// A status code: the same `u16` parse as a port.
pub fn parse_status_u16(s: &str) -> (r: Result<u16, String>)
    ensures
        r matches Ok(n) ==> u16_text(s@) == Some(n as int),
        r is Err ==> u16_text(s@) is None,
{
    parse_u16(s)
}

/// The port of a fetch URL.
pub fn parse_fetch_port(raw_port: &str) -> (r: Result<u16, String>)
    ensures
        r matches Ok(n) ==> u16_text(raw_port@) == Some(n as int),
        r matches Err(m) ==> u16_text(raw_port@) is None && (("invalid fetch port "@ + raw_port@
            + ": "@).is_prefix_of(m@)),
{
    match parse_u16(raw_port) {
        Ok(n) => Ok(n),
        Err(e) => {
            let mut m = copy_string("invalid fetch port ");
            push_str(&mut m, raw_port);
            push_str(&mut m, ": ");
            let ghost head = m@;
            push_str(&mut m, e.as_str());
            assert(m@.take(head.len() as int) =~= head);
            Err(m)
        },
    }
}

pub open spec fn url_parts(scheme: Seq<char>, authority: Seq<char>, host: Seq<char>, port: int, pq: Seq<char>) -> UrlParse {
    UrlParse::Parsed(FetchUrlV { scheme, authority, host, port, path_and_query: pq })
}

/// Host and port of an authority.
pub open spec fn split_authority(scheme: Seq<char>, auth: Seq<char>, pq: Seq<char>, dp: int) -> UrlParse {
    if auth[0] == '[' {
        match find_char(auth, ']') {
            None => UrlParse::Failed("invalid IPv6 fetch authority: "@ + auth),
            Some(e) => {
                let host = auth.take((e + 1) as int);
                let tail = auth.skip((e + 1) as int);
                if tail.len() > 0 && tail[0] == ':' {
                    match u16_text(tail.drop_first()) {
                        Some(n) => url_parts(scheme, auth, host, n, pq),
                        None => UrlParse::BadPort(tail.drop_first()),
                    }
                } else {
                    url_parts(scheme, auth, host, dp, pq)
                }
            },
        }
    } else {
        match rfind_char(auth, ':') {
            Some(c) => {
                let h = auth.take(c as int);
                let p = auth.skip((c + 1) as int);
                if find_char(h, ':') is Some {
                    url_parts(scheme, auth, auth, dp, pq)
                } else {
                    match u16_text(p) {
                        Some(n) => url_parts(scheme, auth, h, n, pq),
                        None => UrlParse::BadPort(p),
                    }
                }
            },
            None => url_parts(scheme, auth, auth, dp, pq),
        }
    }
}

/// A fetch URL: `scheme://authority/path`, scheme `http` or `https` in any case.
pub open spec fn parse_url(raw: Seq<char>) -> UrlParse {
    match find_sub(raw, "://"@) {
        None => UrlParse::Failed("invalid fetch url: "@ + raw),
        Some(i) => {
            let scheme = lower_seq(raw.take(i as int));
            let rest = raw.skip((i + 3) as int);
            if scheme != "http"@ && scheme != "https"@ {
                UrlParse::Failed("unsupported fetch scheme: "@ + scheme)
            } else {
                let dp = if scheme == "http"@ {
                    80
                } else {
                    443
                };
                let auth = match find_char(rest, '/') {
                    Some(j) => rest.take(j as int),
                    None => rest,
                };
                let pq = match find_char(rest, '/') {
                    Some(j) => rest.skip(j as int),
                    None => "/"@,
                };
                if auth.len() == 0 {
                    UrlParse::Failed("invalid fetch url authority: "@ + raw)
                } else {
                    split_authority(scheme, auth, pq, dp)
                }
            }
        },
    }
}

fn message2(a: &str, b: &str) -> (r: String)
    ensures
        r@ == a@ + b@,
{
    crate::text::concat2(a, b)
}

fn split_fetch_authority(scheme: String, auth: &Vec<char>, pq: String, dp: u16) -> (r: Result<ParsedFetchUrl, String>)
    requires
        auth@.len() > 0,
    ensures
        match split_authority(scheme@, auth@, pq@, dp as int) {
            UrlParse::Parsed(u) => r matches Ok(x) && x@ == u,
            UrlParse::Failed(m) => r matches Err(e) && e@ == m,
            UrlParse::BadPort(p) => r matches Err(e) && ("invalid fetch port "@ + p + ": "@).is_prefix_of(e@),
        },
{
    let authority = string_from_range(auth, 0, auth.len());
    assert(auth@.subrange(0, auth@.len() as int) =~= auth@);
    if auth[0] == '[' {
        match index_of_char(auth, ']') {
            None => {
                let m = message2("invalid IPv6 fetch authority: ", authority.as_str());
                Err(m)
            },
            Some(e) => {
                let host = string_from_range(auth, 0, e + 1);
                assert(auth@.take(e + 1) =~= auth@.subrange(0, e + 1));
                let tail_starts_colon = e + 1 < auth.len() && auth[e + 1] == ':';
                if tail_starts_colon {
                    let ptext = string_from_range(auth, e + 2, auth.len());
                    assert(auth@.skip(e + 1).drop_first() =~= auth@.subrange(e + 2, auth@.len() as int));
                    match parse_fetch_port(ptext.as_str()) {
                        Ok(n) => Ok(ParsedFetchUrl { scheme, authority, host, port: n, path_and_query: pq }),
                        Err(m) => Err(m),
                    }
                } else {
                    Ok(ParsedFetchUrl { scheme, authority, host, port: dp, path_and_query: pq })
                }
            },
        }
    } else {
        match last_index_of_char(auth, ':') {
            Some(c) => {
                let h = string_from_range(auth, 0, c);
                let hv = chars_of(h.as_str());
                assert(auth@.take(c as int) =~= auth@.subrange(0, c as int));
                if index_of_char(&hv, ':').is_some() {
                    let host = string_from_range(auth, 0, auth.len());
                    Ok(ParsedFetchUrl { scheme, authority, host, port: dp, path_and_query: pq })
                } else {
                    let ptext = string_from_range(auth, c + 1, auth.len());
                    assert(auth@.skip(c + 1) =~= auth@.subrange(c + 1, auth@.len() as int));
                    match parse_fetch_port(ptext.as_str()) {
                        Ok(n) => Ok(ParsedFetchUrl { scheme, authority, host: h, port: n, path_and_query: pq }),
                        Err(m) => Err(m),
                    }
                }
            },
            None => {
                let host = string_from_range(auth, 0, auth.len());
                Ok(ParsedFetchUrl { scheme, authority, host, port: dp, path_and_query: pq })
            },
        }
    }
}

/// Splits a fetch URL into scheme, authority, host, port and path.
pub fn parse_fetch_url(raw_url: &str) -> (r: Result<ParsedFetchUrl, String>)
    ensures
        match parse_url(raw_url@) {
            UrlParse::Parsed(u) => r matches Ok(x) && x@ == u,
            UrlParse::Failed(m) => r matches Err(e) && e@ == m,
            UrlParse::BadPort(p) => r matches Err(e) && ("invalid fetch port "@ + p + ": "@).is_prefix_of(e@),
        },
{
    let v = chars_of(raw_url);
    let sep = chars_of("://");
    proof {
        reveal_strlit("://");
    }
    let i = match index_of_sub(&v, &sep) {
        Some(i) => i,
        None => {
            return Err(message2("invalid fetch url: ", raw_url));
        },
    };
    let scheme_raw = string_from_range(&v, 0, i);
    assert(v@.take(i as int) =~= v@.subrange(0, i as int));
    let scheme = lower_string(scheme_raw.as_str());
    let is_http = str_eq(scheme.as_str(), "http");
    let is_https = str_eq(scheme.as_str(), "https");
    if !is_http && !is_https {
        return Err(message2("unsupported fetch scheme: ", scheme.as_str()));
    }
    let dp: u16 = if is_http {
        80
    } else {
        443
    };
    let rest_start = i + 3;
    let mut rest: Vec<char> = Vec::new();
    let mut k = rest_start;
    while k < v.len()
        invariant
            rest_start <= k <= v.len(),
            rest@ == v@.subrange(rest_start as int, k as int),
        decreases v.len() - k,
    {
        rest.push(v[k]);
        k = k + 1;
        assert(rest@ =~= v@.subrange(rest_start as int, k as int));
    }
    assert(rest@ =~= v@.skip(i + 3));
    let (auth, pq) = match index_of_char(&rest, '/') {
        Some(j) => {
            let mut a: Vec<char> = Vec::new();
            let mut x: usize = 0;
            while x < j
                invariant
                    0 <= x <= j < rest.len(),
                    a@ == rest@.subrange(0, x as int),
                decreases j - x,
            {
                a.push(rest[x]);
                x = x + 1;
                assert(a@ =~= rest@.subrange(0, x as int));
            }
            assert(a@ =~= rest@.take(j as int));
            let p = string_from_range(&rest, j, rest.len());
            assert(rest@.skip(j as int) =~= rest@.subrange(j as int, rest@.len() as int));
            (a, p)
        },
        None => {
            proof {
                reveal_strlit("/");
            }
            (rest, copy_string("/"))
        },
    };
    if auth.len() == 0 {
        return Err(message2("invalid fetch url authority: ", raw_url));
    }
    split_fetch_authority(scheme, &auth, pq, dp)
}


// ---------------------------------------------------------------------------
// Override logs
// ---------------------------------------------------------------------------

/// `p` without trailing separators and trailing `.` components.
pub open spec fn trim_tail(p: Seq<char>) -> Seq<char>
    decreases p.len(),
{
    if p.len() > 0 && p.last() == '/' {
        trim_tail(p.drop_last())
    } else if p.len() >= 2 && p.last() == '.' && p[p.len() - 2] == '/' {
        trim_tail(p.drop_last())
    } else {
        p
    }
}

/// `Path::with_extension("log")`: the file name's stem (all of a name
/// without a dot after its first character) followed by `.log`; a path
/// without a file name stays as it is.
pub open spec fn log_path_spec(p: Seq<char>) -> Seq<char> {
    let t = trim_tail(p);
    let start: int = match rfind_char(t, '/') {
        Some(i) => (i + 1) as int,
        None => 0,
    };
    let name = t.skip(start);
    if name.len() == 0 || name == seq!['.'] || name == seq!['.', '.'] {
        p
    } else {
        let stem_len: int = match rfind_char(name, '.') {
            Some(d) => if d == 0 {
                name.len() as int
            } else {
                d as int
            },
            None => name.len() as int,
        };
        t.take(start + stem_len) + ".log"@
    }
}

/// The log file of an override: its path with the extension `log`.
pub fn override_log_path(override_path: &str) -> (r: String)
    ensures
        r@ == log_path_spec(override_path@),
{
    let v = chars_of(override_path);
    let mut n = v.len();
    assert(v@.take(n as int) =~= v@);
    while n > 0 && (v[n - 1] == '/' || (n >= 2 && v[n - 1] == '.' && v[n - 2] == '/'))
        invariant
            0 <= n <= v.len(),
            v@ == override_path@,
            trim_tail(v@.take(n as int)) == trim_tail(v@),
        decreases n,
    {
        proof {
            assert(v@.take(n as int).drop_last() =~= v@.take(n - 1));
        }
        n = n - 1;
    }
    let mut t: Vec<char> = Vec::new();
    let mut i: usize = 0;
    while i < n
        invariant
            0 <= i <= n <= v.len(),
            t@ == v@.take(i as int),
        decreases n - i,
    {
        t.push(v[i]);
        i = i + 1;
        assert(t@ =~= v@.take(i as int));
    }
    proof {
        assert(v@.take(v@.len() as int) =~= v@);
        let tn = v@.take(n as int);
        assert(tn == t@);
        if n > 0 {
            assert(tn.last() == v@[n - 1]);
        }
        if n >= 2 {
            assert(tn[tn.len() - 2] == v@[n - 2]);
        }
        assert(trim_tail(tn) == tn);
    }
    let start: usize = match last_index_of_char(&t, '/') {
        Some(i) => i + 1,
        None => 0,
    };
    let name = string_from_range(&t, start, t.len());
    let nv = chars_of(name.as_str());
    assert(nv@ =~= t@.skip(start as int));
    let dots = nv.len() == 1 && nv[0] == '.';
    let dotdot = nv.len() == 2 && nv[0] == '.' && nv[1] == '.';
    proof {
        if nv@.len() == 1 {
            if nv@ == seq!['.'] {
                assert(nv@[0] == '.');
            }
            if dots {
                assert(nv@ =~= seq!['.']);
            }
        }
        if nv@.len() == 2 {
            if nv@ == seq!['.', '.'] {
                assert(nv@[0] == '.');
                assert(nv@[1] == '.');
            }
            if dotdot {
                assert(nv@ =~= seq!['.', '.']);
            }
        }
    }
    if nv.len() == 0 || dots || dotdot {
        return copy_string(override_path);
    }
    let stem_len: usize = match last_index_of_char(&nv, '.') {
        Some(d) => if d == 0 {
            nv.len()
        } else {
            d
        },
        None => nv.len(),
    };
    let mut r = string_from_range(&t, 0, start + stem_len);
    push_str(&mut r, ".log");
    assert(t@.take(start + stem_len) =~= t@.subrange(0, start + stem_len));
    r
}


// ---------------------------------------------------------------------------
// Script helpers
// ---------------------------------------------------------------------------

/// The JavaScript run before every override: `yaml`, `deepMerge`, `b64d`,
/// `b64e`, `Buffer`, `console` and `fetch`, built on the native helpers.
pub const HELPER_SCRIPT: &'static str = r#"
const yaml = Object.freeze({
  parse(value) {
    return JSON.parse(__yamlParseNative(String(value)));
  },
  stringify(value) {
    return __yamlStringifyNative(JSON.stringify(value));
  }
});
const trimWrap = (value) => {
  if (typeof value !== "string") {
    return value;
  }
  if (value.startsWith("<") && value.endsWith(">")) {
    return value.slice(1, -1);
  }
  return value;
};
const isObject = (item) => item && typeof item === "object" && !Array.isArray(item);
const deepMerge = (target, other, isOverride = true) => {
  for (const key in other) {
    if (isObject(other[key])) {
      if (key.endsWith("!")) {
        const nextKey = trimWrap(key.slice(0, -1));
        target[nextKey] = other[key];
      } else {
        const nextKey = trimWrap(key);
        if (!target[nextKey]) {
          Object.assign(target, { [nextKey]: {} });
        }
        deepMerge(target[nextKey], other[key], isOverride);
      }
    } else if (Array.isArray(other[key])) {
      if (isOverride && key.startsWith("+")) {
        const nextKey = trimWrap(key.slice(1));
        if (!target[nextKey]) {
          Object.assign(target, { [nextKey]: [] });
        }
        target[nextKey] = [...other[key], ...target[nextKey]];
      } else if (isOverride && key.endsWith("+")) {
        const nextKey = trimWrap(key.slice(0, -1));
        if (!target[nextKey]) {
          Object.assign(target, { [nextKey]: [] });
        }
        target[nextKey] = [...target[nextKey], ...other[key]];
      } else {
        const nextKey = trimWrap(key);
        Object.assign(target, { [nextKey]: [...other[key]] });
      }
    } else {
      Object.assign(target, { [key]: other[key] });
    }
  }
  return target;
};
const formatLogValue = (value) => {
  if (__encrypted === "true") {
    return "(redacted, encrypted profile)";
  }
  if (value instanceof Error) {
    return `${value.name}: ${value.message}`;
  }
  try {
    const serialized = JSON.stringify(value);
    const text = serialized === undefined ? String(value) : serialized;
    return text;
  } catch (error) {
    return String(value);
  }
};
const console = Object.freeze({
  log: (...args) => __consoleLogNative("log", args.map(formatLogValue).join(" ")),
  info: (...args) => __consoleLogNative("info", args.map(formatLogValue).join(" ")),
  error: (...args) => __consoleLogNative("error", args.map(formatLogValue).join(" ")),
  debug: (...args) => __consoleLogNative("debug", args.map(formatLogValue).join(" ")),
  warn: (...args) => __consoleLogNative("warn", args.map(formatLogValue).join(" "))
});
const normalizeFetchRequest = (input, init = undefined) => {
  const base = typeof input === "string" ? { url: input } : { ...(input || {}) };
  const requestInit = init ? { ...init } : {};
  const url = String(requestInit.url ?? base.url ?? "");
  if (!url) {
    throw new Error("fetch(url) requires a non-empty url");
  }
  const method = String(requestInit.method ?? base.method ?? "GET").toUpperCase();
  const headers = { ...(base.headers || {}), ...(requestInit.headers || {}) };
  const bodySource = requestInit.body !== undefined ? requestInit.body : base.body;
  const request = { url, method, headers };
  if (bodySource !== undefined) {
    request.body = typeof bodySource === "string" ? bodySource : JSON.stringify(bodySource);
  }
  return request;
};
const createFetchResponse = (payload) => {
  const headerEntries = Object.freeze({ ...(payload.headers || {}) });
  return Object.freeze({
    ok: Boolean(payload.ok),
    status: Number(payload.status || 0),
    statusText: String(payload.statusText || ""),
    url: String(payload.url || ""),
    headers: Object.freeze({
      ...headerEntries,
      get(name) {
        const key = String(name).toLowerCase();
        return headerEntries[key] ?? null;
      },
      has(name) {
        const key = String(name).toLowerCase();
        return key in headerEntries;
      },
      toJSON() {
        return { ...headerEntries };
      }
    }),
    async text() {
      return String(payload.body ?? "");
    },
    async json() {
      return JSON.parse(String(payload.body ?? ""));
    },
    async yaml() {
      return yaml.parse(String(payload.body ?? ""));
    }
  });
};
const fetch = async (input, init = undefined) => {
  const request = normalizeFetchRequest(input, init);
  const payload = JSON.parse(__fetchNative(JSON.stringify(request)));
  return createFetchResponse(payload);
};
const b64d = (value) => __b64dNative(String(value));
const createBuffer = (base64Value) => Object.freeze({
  __isYumeBuffer: true,
  __base64: String(base64Value),
  toString(encoding = "utf8") {
    const normalizedEncoding = String(encoding).toLowerCase();
    if (normalizedEncoding === "base64") {
      return this.__base64;
    }
    if (normalizedEncoding === "utf8" || normalizedEncoding === "utf-8") {
      return __b64dNative(this.__base64);
    }
    throw new Error(`Buffer.toString() unsupported encoding: ${encoding}`);
  },
  valueOf() {
    return this.toString("utf8");
  }
});
const Buffer = Object.freeze({
  from(value, encoding = "utf8") {
    if (value && value.__isYumeBuffer === true && typeof value.__base64 === "string") {
      return createBuffer(value.__base64);
    }
    const normalizedEncoding = String(encoding).toLowerCase();
    if (normalizedEncoding === "base64") {
      return createBuffer(String(value));
    }
    if (normalizedEncoding === "utf8" || normalizedEncoding === "utf-8") {
      return createBuffer(__b64eNative(String(value)));
    }
    throw new Error(`Buffer.from() unsupported encoding: ${encoding}`);
  },
  isBuffer(value) {
    return Boolean(value && value.__isYumeBuffer === true && typeof value.__base64 === "string");
  }
});
const b64e = (value) => Buffer.isBuffer(value) ? value.toString("base64") : __b64eNative(String(value));
globalThis.yaml = yaml;
globalThis.deepMerge = deepMerge;
globalThis.b64d = b64d;
globalThis.b64e = b64e;
globalThis.Buffer = Buffer;
globalThis.console = console;
globalThis.fetch = fetch;
"#;

/// The helper script.
pub fn helper_script() -> (r: &'static str)
    ensures
        r@ == HELPER_SCRIPT@,
{
    HELPER_SCRIPT
}

/// How many rounds of promise jobs an async `main` may take to settle.
pub const MAX_PROMISE_JOB_PASSES: usize = 1024;

/// What a promise shows after a round of jobs.
pub enum PromiseShows {
    Pending,
    Fulfilled,
    /// Rejected, with the reason as text.
    Rejected(String),
}

/// What to do next while an async `main` settles.
#[derive(PartialEq, Eq, Debug)]
pub enum SettleStep {
    /// Run another round of jobs.
    RunJobs,
    /// Take the fulfilled value.
    Resolved,
    /// Fail with this message.
    Failed(String),
}

/// The next step after `passes` rounds of jobs (at least one) have run and the
/// promise shows `shows`: a pending promise gets another round until
/// [`MAX_PROMISE_JOB_PASSES`] rounds have run.
pub fn settle_step(passes: usize, shows: PromiseShows) -> (r: SettleStep)
    ensures
        match shows {
            PromiseShows::Fulfilled => r == SettleStep::Resolved,
            PromiseShows::Rejected(reason) => r matches SettleStep::Failed(m) && m@ == "JS override rejected: "@
                + reason@,
            PromiseShows::Pending => if passes < MAX_PROMISE_JOB_PASSES {
                r == SettleStep::RunJobs
            } else {
                r matches SettleStep::Failed(m) && m@ == "async main(profile) did not settle"@
            },
        },
{
    match shows {
        PromiseShows::Fulfilled => SettleStep::Resolved,
        PromiseShows::Rejected(reason) => SettleStep::Failed(concat2("JS override rejected: ", reason.as_str())),
        PromiseShows::Pending => if passes < MAX_PROMISE_JOB_PASSES {
            SettleStep::RunJobs
        } else {
            SettleStep::Failed(copy_string("async main(profile) did not settle"))
        },
    }
}

} // verus!
