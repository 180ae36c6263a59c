use vstd::prelude::*;

use vstd::bytes::lemma_auto_spec_u64_to_from_le_bytes;
use vstd::bytes::spec_u64_from_le_bytes;
use vstd::bytes::spec_u64_to_le_bytes;
use vstd::bytes::u64_from_le_bytes;
use vstd::bytes::u64_to_le_bytes;
use vstd::utf8::encode_utf8;
use vstd::utf8::valid_utf8;

verus! {

/// The wire form of a 64-bit number: eight bytes, little end first.
pub open spec fn enc_u64(x: u64) -> Seq<u8> {
    spec_u64_to_le_bytes(x)
}

/// The wire form of a flag: one byte, one or zero.
pub open spec fn enc_bool(b: bool) -> Seq<u8> {
    seq![if b { 1u8 } else { 0u8 }]
}

/// A string whose byte length fits the wire's length field.
pub open spec fn encodable_str(s: String) -> bool {
    encode_utf8(s@).len() < 0x1_0000_0000_0000_0000
}

/// The wire form of a string: its byte length, then its bytes.
pub open spec fn enc_str(s: String) -> Seq<u8> {
    enc_u64(encode_utf8(s@).len() as u64) + encode_utf8(s@)
}

/// The wire form of an optional string: an absence flag, then the string.
pub open spec fn enc_opt_str(s: Option<String>) -> Seq<u8> {
    match s {
        None => seq![0u8],
        Some(x) => seq![1u8] + enc_str(x),
    }
}

/// An optional string whose byte length fits the length field.
pub open spec fn encodable_opt_str(s: Option<String>) -> bool {
    match s {
        None => true,
        Some(x) => encodable_str(x),
    }
}

/// The wire form of an optional number.
pub open spec fn enc_opt_u64(x: Option<u64>) -> Seq<u8> {
    match x {
        None => seq![0u8],
        Some(v) => seq![1u8] + enc_u64(v),
    }
}

/// The wire form of an optional machine-size number.
pub open spec fn enc_opt_usize(x: Option<usize>) -> Seq<u8> {
    match x {
        None => seq![0u8],
        Some(v) => seq![1u8] + enc_u64(v as u64),
    }
}

/// Splitting equal concatenations at the same offset splits them into
/// equal halves.
pub proof fn lemma_concat_parts(x1: Seq<u8>, y1: Seq<u8>, x2: Seq<u8>, y2: Seq<u8>)
    requires
        x1 + y1 == x2 + y2,
        x1.len() == x2.len(),
    ensures
        x1 == x2,
        y1 == y2,
{
    assert(x1 =~= (x1 + y1).take(x1.len() as int));
    assert(x2 =~= (x2 + y2).take(x2.len() as int));
    assert(y1 =~= (x1 + y1).skip(x1.len() as int));
    assert(y2 =~= (x2 + y2).skip(x2.len() as int));
}

/// True when the stream `bytes`, from `i` on, reads as `pre` and then
/// `rest`.  Every reader returns a value whenever the stream opens with
/// a wire form it knows.
pub open spec fn stream_opens(bytes: Seq<u8>, i: int, pre: Seq<u8>, rest: Seq<u8>) -> bool {
    0 <= i <= bytes.len() && bytes.skip(i) == pre + rest
}

/// A stream splits at any position within it: from `i` on it is the
/// bytes up to `j`, then the bytes from `j`.
pub proof fn lemma_stream_split(bytes: Seq<u8>, i: int, j: int)
    requires
        0 <= i <= j <= bytes.len(),
    ensures
        bytes.skip(i) == bytes.subrange(i, j) + bytes.skip(j),
{
    assert(bytes.skip(i) =~= bytes.subrange(i, j) + bytes.skip(j));
}

/// What an opened stream pins down: its length, the prefix in place,
/// and the rest right after it.
pub proof fn lemma_stream_opens_parts(bytes: Seq<u8>, i: int, pre: Seq<u8>, rest: Seq<u8>)
    requires
        stream_opens(bytes, i, pre, rest),
    ensures
        i + pre.len() + rest.len() == bytes.len(),
        bytes.subrange(i, i + pre.len()) == pre,
        bytes.skip(i + pre.len()) == rest,
{
    assert(bytes.skip(i).len() == bytes.len() - i);
    assert forall|k: int| 0 <= k < pre.len() implies bytes.subrange(i, i + pre.len())[k]
        == pre[k] by {
        assert(bytes.skip(i)[k] == (pre + rest)[k]);
    }
    assert(bytes.subrange(i, i + pre.len()) =~= pre);
    assert forall|k: int| 0 <= k < rest.len() implies bytes.skip(i + pre.len())[k] == rest[k] by {
        assert(bytes.skip(i)[pre.len() + k] == (pre + rest)[pre.len() + k]);
    }
    assert(bytes.skip(i + pre.len()) =~= rest);
}

/// A sound read against an opened stream: the bytes read and the stream
/// after them spell the opened prefix and its rest.
pub proof fn lemma_stream_feed(bytes: Seq<u8>, i: int, j: int, pre: Seq<u8>, rest: Seq<u8>)
    requires
        stream_opens(bytes, i, pre, rest),
        0 <= i <= j <= bytes.len(),
    ensures
        bytes.subrange(i, j) + bytes.skip(j) == pre + rest,
{
    lemma_stream_split(bytes, i, j);
}

/// Two string encodings that open the same byte stream are the same
/// encoding, of strings with the same contents.
pub proof fn lemma_enc_str_prefix(a: String, b: String, ra: Seq<u8>, rb: Seq<u8>)
    requires
        enc_str(a) + ra == enc_str(b) + rb,
        encodable_str(a),
        encodable_str(b),
    ensures
        enc_str(a) == enc_str(b),
        ra == rb,
        a@ == b@,
{
    lemma_auto_spec_u64_to_from_le_bytes();
    let la = encode_utf8(a@).len() as u64;
    let lb = encode_utf8(b@).len() as u64;
    assert((enc_u64(la) + encode_utf8(a@)) + ra =~= enc_u64(la) + (encode_utf8(a@) + ra));
    assert((enc_u64(lb) + encode_utf8(b@)) + rb =~= enc_u64(lb) + (encode_utf8(b@) + rb));
    lemma_concat_parts(enc_u64(la), encode_utf8(a@) + ra, enc_u64(lb), encode_utf8(b@) + rb);
    assert(spec_u64_from_le_bytes(enc_u64(la)) == spec_u64_from_le_bytes(enc_u64(lb)));
    assert(la == lb);
    lemma_concat_parts(encode_utf8(a@), ra, encode_utf8(b@), rb);
    vstd::utf8::encode_utf8_decode_utf8(a@);
    vstd::utf8::encode_utf8_decode_utf8(b@);
    assert(a@ == b@);
}

/// Two optional-string encodings that open the same byte stream are the
/// same encoding, of equal options.
pub proof fn lemma_enc_opt_str_prefix(
    a: Option<String>,
    b: Option<String>,
    ra: Seq<u8>,
    rb: Seq<u8>,
)
    requires
        enc_opt_str(a) + ra == enc_opt_str(b) + rb,
        encodable_opt_str(a),
        encodable_opt_str(b),
    ensures
        enc_opt_str(a) == enc_opt_str(b),
        ra == rb,
        crate::seq_util::opt_str_eqv(a, b),
{
    match (a, b) {
        (None, None) => {
            lemma_concat_parts(seq![0u8], ra, seq![0u8], rb);
        },
        (Some(x), Some(y)) => {
            assert((seq![1u8] + enc_str(x)) + ra =~= seq![1u8] + (enc_str(x) + ra));
            assert((seq![1u8] + enc_str(y)) + rb =~= seq![1u8] + (enc_str(y) + rb));
            lemma_concat_parts(seq![1u8], enc_str(x) + ra, seq![1u8], enc_str(y) + rb);
            lemma_enc_str_prefix(x, y, ra, rb);
        },
        (None, Some(y)) => {
            assert((enc_opt_str(a) + ra)[0] == 0u8);
            assert((seq![1u8] + enc_str(y)) + rb =~= seq![1u8] + (enc_str(y) + rb));
            assert((enc_opt_str(b) + rb)[0] == 1u8);
        },
        (Some(x), None) => {
            assert((seq![1u8] + enc_str(x)) + ra =~= seq![1u8] + (enc_str(x) + ra));
            assert((enc_opt_str(a) + ra)[0] == 1u8);
            assert((enc_opt_str(b) + rb)[0] == 0u8);
        },
    }
}

/// Two optional-number encodings that open the same byte stream are the
/// same encoding, of equal options.
pub proof fn lemma_enc_opt_u64_prefix(a: Option<u64>, b: Option<u64>, ra: Seq<u8>, rb: Seq<u8>)
    requires
        enc_opt_u64(a) + ra == enc_opt_u64(b) + rb,
    ensures
        enc_opt_u64(a) == enc_opt_u64(b),
        ra == rb,
        a == b,
{
    lemma_auto_spec_u64_to_from_le_bytes();
    match (a, b) {
        (None, None) => {
            lemma_concat_parts(seq![0u8], ra, seq![0u8], rb);
        },
        (Some(x), Some(y)) => {
            assert((seq![1u8] + enc_u64(x)) + ra =~= seq![1u8] + (enc_u64(x) + ra));
            assert((seq![1u8] + enc_u64(y)) + rb =~= seq![1u8] + (enc_u64(y) + rb));
            lemma_concat_parts(seq![1u8], enc_u64(x) + ra, seq![1u8], enc_u64(y) + rb);
            lemma_concat_parts(enc_u64(x), ra, enc_u64(y), rb);
            assert(spec_u64_from_le_bytes(enc_u64(x)) == spec_u64_from_le_bytes(enc_u64(y)));
        },
        (None, Some(y)) => {
            assert((enc_opt_u64(a) + ra)[0] == 0u8);
            assert((seq![1u8] + enc_u64(y)) + rb =~= seq![1u8] + (enc_u64(y) + rb));
            assert((enc_opt_u64(b) + rb)[0] == 1u8);
        },
        (Some(x), None) => {
            assert((seq![1u8] + enc_u64(x)) + ra =~= seq![1u8] + (enc_u64(x) + ra));
            assert((enc_opt_u64(a) + ra)[0] == 1u8);
            assert((enc_opt_u64(b) + rb)[0] == 0u8);
        },
    }
}

/// Two optional-machine-size encodings that open the same byte stream are
/// the same encoding, of equal options.
pub proof fn lemma_enc_opt_usize_prefix(
    a: Option<usize>,
    b: Option<usize>,
    ra: Seq<u8>,
    rb: Seq<u8>,
)
    requires
        enc_opt_usize(a) + ra == enc_opt_usize(b) + rb,
    ensures
        enc_opt_usize(a) == enc_opt_usize(b),
        ra == rb,
        a == b,
{
    let a64 = match a {
        None => None,
        Some(x) => Some(x as u64),
    };
    let b64 = match b {
        None => None,
        Some(x) => Some(x as u64),
    };
    assert(enc_opt_usize(a) == enc_opt_u64(a64));
    assert(enc_opt_usize(b) == enc_opt_u64(b64));
    lemma_enc_opt_u64_prefix(a64, b64, ra, rb);
}

/// Append the wire form of a number.
pub fn write_u64(x: u64, buf: &mut Vec<u8>)
    ensures
        final(buf)@ == old(buf)@ + enc_u64(x),
{
    let mut bytes = u64_to_le_bytes(x);
    buf.append(&mut bytes);
}

/// Append the wire form of a flag.
pub fn write_bool(b: bool, buf: &mut Vec<u8>)
    ensures
        final(buf)@ == old(buf)@ + enc_bool(b),
{
    buf.push(if b {
        1u8
    } else {
        0u8
    });
    proof {
        assert(final(buf)@ =~= old(buf)@ + enc_bool(b));
    }
}

/// Append the wire form of a string.
pub fn write_str(s: &String, buf: &mut Vec<u8>)
    ensures
        final(buf)@ == old(buf)@ + enc_str(*s),
        encodable_str(*s),
{
    let bytes = s.as_str().as_bytes();
    write_u64(bytes.len() as u64, buf);
    let mut tail = slice_to_vec(bytes);
    buf.append(&mut tail);
    proof {
        assert(final(buf)@ =~= old(buf)@ + enc_str(*s));
    }
}

/// Copy a byte slice into a fresh vector.
fn slice_to_vec(s: &[u8]) -> (r: Vec<u8>)
    ensures
        r@ == s@,
{
    let mut out: Vec<u8> = Vec::new();
    let mut i: usize = 0;
    while i < s.len()
        invariant
            0 <= i <= s@.len(),
            out@ =~= s@.take(i as int),
        decreases s@.len() - i,
    {
        out.push(*vstd::slice::slice_index_get(s, i));
        proof {
            assert(out@ =~= s@.take(i + 1 as int));
        }
        i = i + 1;
    }
    proof {
        assert(out@ =~= s@);
    }
    out
}

/// Append the wire form of an optional string.
pub fn write_opt_str(s: &Option<String>, buf: &mut Vec<u8>)
    ensures
        final(buf)@ == old(buf)@ + enc_opt_str(*s),
        encodable_opt_str(*s),
{
    match s {
        None => {
            write_bool(false, buf);
        },
        Some(x) => {
            write_bool(true, buf);
            write_str(x, buf);
            proof {
                assert(final(buf)@ =~= old(buf)@ + enc_opt_str(*s));
            }
        },
    }
}

/// Append the wire form of an optional number.
pub fn write_opt_u64(x: &Option<u64>, buf: &mut Vec<u8>)
    ensures
        final(buf)@ == old(buf)@ + enc_opt_u64(*x),
{
    match x {
        None => {
            write_bool(false, buf);
        },
        Some(v) => {
            write_bool(true, buf);
            write_u64(*v, buf);
            proof {
                assert(final(buf)@ =~= old(buf)@ + enc_opt_u64(*x));
            }
        },
    }
}

/// Append the wire form of an optional machine-size number.
pub fn write_opt_usize(x: &Option<usize>, buf: &mut Vec<u8>)
    ensures
        final(buf)@ == old(buf)@ + enc_opt_usize(*x),
{
    match x {
        None => {
            write_bool(false, buf);
        },
        Some(v) => {
            write_bool(true, buf);
            write_u64(*v as u64, buf);
            proof {
                assert(final(buf)@ =~= old(buf)@ + enc_opt_usize(*x));
            }
        },
    }
}

/// Read back a number, when eight bytes are there.
pub fn read_u64(bytes: &Vec<u8>, i: usize) -> (r: Option<(u64, usize)>)
    ensures
        r matches Some((x, j)) ==> i + 8 == j && j <= bytes@.len() && bytes@.subrange(
            i as int,
            j as int,
        ) == enc_u64(x),
        forall|x: u64, rest: Seq<u8>|
            #[trigger] stream_opens(bytes@, i as int, enc_u64(x), rest) ==> r is Some,
{
    proof {
        assert forall|x: u64, rest: Seq<u8>|
            #[trigger] stream_opens(bytes@, i as int, enc_u64(x), rest) implies i + 8
            <= bytes@.len() by {
            lemma_auto_spec_u64_to_from_le_bytes();
            lemma_stream_opens_parts(bytes@, i as int, enc_u64(x), rest);
        }
    }
    if i < bytes.len() && bytes.len() - i >= 8 {
        let window = vstd::slice::slice_subrange(bytes.as_slice(), i, i + 8);
        let x = u64_from_le_bytes(window);
        proof {
            lemma_auto_spec_u64_to_from_le_bytes();
            assert(enc_u64(x) == spec_u64_to_le_bytes(spec_u64_from_le_bytes(window@)));
            assert(enc_u64(x) =~= bytes@.subrange(i as int, i + 8 as int));
        }
        Some((x, i + 8))
    } else {
        None
    }
}

/// Read back a flag.
pub fn read_bool(bytes: &Vec<u8>, i: usize) -> (r: Option<(bool, usize)>)
    ensures
        r matches Some((b, j)) ==> i + 1 == j && j <= bytes@.len() && bytes@.subrange(
            i as int,
            j as int,
        ) == enc_bool(b),
        forall|b: bool, rest: Seq<u8>|
            #[trigger] stream_opens(bytes@, i as int, enc_bool(b), rest) ==> r is Some,
{
    proof {
        assert forall|b: bool, rest: Seq<u8>|
            #[trigger] stream_opens(bytes@, i as int, enc_bool(b), rest) implies i < bytes@.len()
            && (bytes@[i as int] == 0u8 || bytes@[i as int] == 1u8) by {
            lemma_stream_opens_parts(bytes@, i as int, enc_bool(b), rest);
            assert(bytes@[i as int] == bytes@.subrange(i as int, i + 1 as int)[0]);
        }
    }
    if i < bytes.len() {
        let byte = bytes[i];
        if byte == 0u8 {
            proof {
                assert(bytes@.subrange(i as int, i + 1 as int) =~= enc_bool(false));
            }
            Some((false, i + 1))
        } else if byte == 1u8 {
            proof {
                assert(bytes@.subrange(i as int, i + 1 as int) =~= enc_bool(true));
            }
            Some((true, i + 1))
        } else {
            None
        }
    } else {
        None
    }
}

/// Turn bytes into the string with exactly those bytes.  Relies on
/// String::from_utf8: it succeeds exactly on valid UTF-8 and returns the
/// string those bytes spell.
#[verifier::external_body]
fn bytes_to_string(bytes: Vec<u8>) -> (r: Option<String>)
    ensures
        r matches Some(s) ==> encode_utf8(s@) == bytes@,
        valid_utf8(bytes@) ==> r is Some,
{
    String::from_utf8(bytes).ok()
}

/// Read back a string.
pub fn read_str(bytes: &Vec<u8>, i: usize) -> (r: Option<(String, usize)>)
    ensures
        r matches Some((s, j)) ==> i <= j <= bytes@.len() && bytes@.subrange(i as int, j as int)
            == enc_str(s) && encodable_str(s),
        forall|s: String, rest: Seq<u8>|
            encodable_str(s) && #[trigger] stream_opens(bytes@, i as int, enc_str(s), rest)
                ==> r is Some,
{
    proof {
        assert forall|s: String, rest: Seq<u8>|
            encodable_str(s) && #[trigger] stream_opens(bytes@, i as int, enc_str(s), rest)
            implies stream_opens(
            bytes@,
            i as int,
            enc_u64(encode_utf8(s@).len() as u64),
            encode_utf8(s@) + rest,
        ) by {
            assert(enc_str(s) + rest =~= enc_u64(encode_utf8(s@).len() as u64) + (encode_utf8(s@)
                + rest));
        }
    }
    let (n, k) = match read_u64(bytes, i) {
        Some(p) => p,
        None => {
            return None;
        },
    };
    let total = bytes.len();
    proof {
        assert forall|s: String, rest: Seq<u8>|
            encodable_str(s) && #[trigger] stream_opens(bytes@, i as int, enc_str(s), rest)
            implies n == encode_utf8(s@).len() && stream_opens(
            bytes@,
            k as int,
            encode_utf8(s@),
            rest,
        ) by {
            lemma_auto_spec_u64_to_from_le_bytes();
            lemma_stream_feed(
                bytes@,
                i as int,
                k as int,
                enc_u64(encode_utf8(s@).len() as u64),
                encode_utf8(s@) + rest,
            );
            lemma_concat_parts(
                enc_u64(n),
                bytes@.skip(k as int),
                enc_u64(encode_utf8(s@).len() as u64),
                encode_utf8(s@) + rest,
            );
            assert(spec_u64_from_le_bytes(enc_u64(n)) == spec_u64_from_le_bytes(
                enc_u64(encode_utf8(s@).len() as u64),
            ));
        }
        assert(bytes@.len() == total);
    }
    if n > (usize::MAX) as u64 {
        proof {
            assert forall|s: String, rest: Seq<u8>|
                encodable_str(s) && #[trigger] stream_opens(bytes@, i as int, enc_str(s), rest)
                implies false by {
                lemma_stream_opens_parts(bytes@, k as int, encode_utf8(s@), rest);
            }
        }
        return None;
    }
    let nu = n as usize;
    if bytes.len() - k < nu {
        proof {
            assert forall|s: String, rest: Seq<u8>|
                encodable_str(s) && #[trigger] stream_opens(bytes@, i as int, enc_str(s), rest)
                implies false by {
                lemma_stream_opens_parts(bytes@, k as int, encode_utf8(s@), rest);
            }
        }
        return None;
    }
    let window = vstd::slice::slice_subrange(bytes.as_slice(), k, k + nu);
    let segment = slice_to_vec(window);
    let ghost seg = segment@;
    match bytes_to_string(segment) {
        Some(s) => {
            proof {
                lemma_auto_spec_u64_to_from_le_bytes();
                assert(encode_utf8(s@) == seg);
                assert(enc_str(s) =~= bytes@.subrange(i as int, (k + nu) as int));
            }
            Some((s, k + nu))
        },
        None => {
            proof {
                assert forall|s: String, rest: Seq<u8>|
                    encodable_str(s) && #[trigger] stream_opens(bytes@, i as int, enc_str(s), rest)
                    implies false by {
                    lemma_stream_opens_parts(bytes@, k as int, encode_utf8(s@), rest);
                    assert(seg == encode_utf8(s@));
                    vstd::utf8::encode_utf8_valid_utf8(s@);
                }
            }
            None
        },
    }
}

/// Read back an optional string.
pub fn read_opt_str(bytes: &Vec<u8>, i: usize) -> (r: Option<(Option<String>, usize)>)
    ensures
        r matches Some((s, j)) ==> i <= j <= bytes@.len() && bytes@.subrange(i as int, j as int)
            == enc_opt_str(s) && encodable_opt_str(s),
        forall|v: Option<String>, rest: Seq<u8>|
            encodable_opt_str(v) && #[trigger] stream_opens(bytes@, i as int, enc_opt_str(v), rest)
                ==> r is Some,
{
    proof {
        assert forall|v: Option<String>, rest: Seq<u8>|
            encodable_opt_str(v) && #[trigger] stream_opens(bytes@, i as int, enc_opt_str(v), rest)
            implies match v {
            None => stream_opens(bytes@, i as int, enc_bool(false), rest),
            Some(x) => stream_opens(bytes@, i as int, enc_bool(true), enc_str(x) + rest),
        } by {
            match v {
                None => {
                    assert(enc_opt_str(v) + rest =~= enc_bool(false) + rest);
                },
                Some(x) => {
                    assert(enc_opt_str(v) + rest =~= enc_bool(true) + (enc_str(x) + rest));
                },
            }
        }
    }
    let (flag, k) = match read_bool(bytes, i) {
        Some(p) => p,
        None => {
            return None;
        },
    };
    if !flag {
        return Some((None, k));
    }
    proof {
        assert forall|v: Option<String>, rest: Seq<u8>|
            encodable_opt_str(v) && #[trigger] stream_opens(bytes@, i as int, enc_opt_str(v), rest)
            implies (v matches Some(x) && stream_opens(bytes@, k as int, enc_str(x), rest)) by {
            match v {
                None => {
                    lemma_stream_feed(bytes@, i as int, k as int, enc_bool(false), rest);
                    lemma_enc_bool_prefix(true, false, bytes@.skip(k as int), rest);
                },
                Some(x) => {
                    lemma_stream_feed(bytes@, i as int, k as int, enc_bool(true), enc_str(x) + rest);
                    lemma_enc_bool_prefix(true, true, bytes@.skip(k as int), enc_str(x) + rest);
                },
            }
        }
    }
    match read_str(bytes, k) {
        Some((s, j)) => {
            proof {
                assert(enc_opt_str(Some(s)) =~= bytes@.subrange(i as int, j as int));
            }
            Some((Some(s), j))
        },
        None => None,
    }
}

/// Read back an optional number.
pub fn read_opt_u64(bytes: &Vec<u8>, i: usize) -> (r: Option<(Option<u64>, usize)>)
    ensures
        r matches Some((x, j)) ==> i <= j <= bytes@.len() && bytes@.subrange(i as int, j as int)
            == enc_opt_u64(x),
        forall|v: Option<u64>, rest: Seq<u8>|
            #[trigger] stream_opens(bytes@, i as int, enc_opt_u64(v), rest) ==> r is Some,
{
    proof {
        assert forall|v: Option<u64>, rest: Seq<u8>|
            #[trigger] stream_opens(bytes@, i as int, enc_opt_u64(v), rest) implies match v {
            None => stream_opens(bytes@, i as int, enc_bool(false), rest),
            Some(x) => stream_opens(bytes@, i as int, enc_bool(true), enc_u64(x) + rest),
        } by {
            match v {
                None => {
                    assert(enc_opt_u64(v) + rest =~= enc_bool(false) + rest);
                },
                Some(x) => {
                    assert(enc_opt_u64(v) + rest =~= enc_bool(true) + (enc_u64(x) + rest));
                },
            }
        }
    }
    let (flag, k) = match read_bool(bytes, i) {
        Some(p) => p,
        None => {
            return None;
        },
    };
    if !flag {
        return Some((None, k));
    }
    proof {
        assert forall|v: Option<u64>, rest: Seq<u8>|
            #[trigger] stream_opens(bytes@, i as int, enc_opt_u64(v), rest) implies (v matches Some(
                x,
            ) && stream_opens(bytes@, k as int, enc_u64(x), rest)) by {
            match v {
                None => {
                    lemma_stream_feed(bytes@, i as int, k as int, enc_bool(false), rest);
                    lemma_enc_bool_prefix(true, false, bytes@.skip(k as int), rest);
                },
                Some(x) => {
                    lemma_stream_feed(bytes@, i as int, k as int, enc_bool(true), enc_u64(x) + rest);
                    lemma_enc_bool_prefix(true, true, bytes@.skip(k as int), enc_u64(x) + rest);
                },
            }
        }
    }
    match read_u64(bytes, k) {
        Some((x, j)) => {
            proof {
                assert(enc_opt_u64(Some(x)) =~= bytes@.subrange(i as int, j as int));
            }
            Some((Some(x), j))
        },
        None => None,
    }
}

/// Read back an optional machine-size number.
pub fn read_opt_usize(bytes: &Vec<u8>, i: usize) -> (r: Option<(Option<usize>, usize)>)
    ensures
        r matches Some((x, j)) ==> i <= j <= bytes@.len() && bytes@.subrange(i as int, j as int)
            == enc_opt_usize(x),
        forall|v: Option<usize>, rest: Seq<u8>|
            #[trigger] stream_opens(bytes@, i as int, enc_opt_usize(v), rest) ==> r is Some,
{
    proof {
        assert forall|v: Option<usize>, rest: Seq<u8>|
            #[trigger] stream_opens(bytes@, i as int, enc_opt_usize(v), rest) implies match v {
            None => stream_opens(bytes@, i as int, enc_bool(false), rest),
            Some(x) => stream_opens(bytes@, i as int, enc_bool(true), enc_u64(x as u64) + rest),
        } by {
            match v {
                None => {
                    assert(enc_opt_usize(v) + rest =~= enc_bool(false) + rest);
                },
                Some(x) => {
                    assert(enc_opt_usize(v) + rest =~= enc_bool(true) + (enc_u64(x as u64) + rest));
                },
            }
        }
    }
    let (flag, k) = match read_bool(bytes, i) {
        Some(p) => p,
        None => {
            return None;
        },
    };
    if !flag {
        return Some((None, k));
    }
    proof {
        assert forall|v: Option<usize>, rest: Seq<u8>|
            #[trigger] stream_opens(bytes@, i as int, enc_opt_usize(v), rest) implies (v
            matches Some(x) && stream_opens(bytes@, k as int, enc_u64(x as u64), rest)) by {
            match v {
                None => {
                    lemma_stream_feed(bytes@, i as int, k as int, enc_bool(false), rest);
                    lemma_enc_bool_prefix(true, false, bytes@.skip(k as int), rest);
                },
                Some(x) => {
                    lemma_stream_feed(
                        bytes@,
                        i as int,
                        k as int,
                        enc_bool(true),
                        enc_u64(x as u64) + rest,
                    );
                    lemma_enc_bool_prefix(true, true, bytes@.skip(k as int), enc_u64(x as u64) + rest);
                },
            }
        }
    }
    match read_u64(bytes, k) {
        Some((x, j)) => {
            if x > (usize::MAX) as u64 {
                proof {
                    assert forall|v: Option<usize>, rest: Seq<u8>|
                        #[trigger] stream_opens(bytes@, i as int, enc_opt_usize(v), rest)
                        implies false by {
                        let w = v.unwrap();
                        lemma_auto_spec_u64_to_from_le_bytes();
                        lemma_stream_feed(
                            bytes@,
                            k as int,
                            j as int,
                            enc_u64(w as u64),
                            rest,
                        );
                        lemma_concat_parts(
                            enc_u64(x),
                            bytes@.skip(j as int),
                            enc_u64(w as u64),
                            rest,
                        );
                        assert(spec_u64_from_le_bytes(enc_u64(x)) == spec_u64_from_le_bytes(
                            enc_u64(w as u64),
                        ));
                    }
                }
                return None;
            }
            proof {
                assert(x as usize as u64 == x);
                assert(enc_opt_usize(Some(x as usize)) =~= bytes@.subrange(i as int, j as int));
            }
            Some((Some(x as usize), j))
        },
        None => None,
    }
}

/// The concatenation of a sequence of byte strings.
pub open spec fn concat_bytes(s: Seq<Seq<u8>>) -> Seq<u8>
    decreases s.len(),
{
    if s.len() == 0 {
        Seq::empty()
    } else {
        s[0] + concat_bytes(s.drop_first())
    }
}

/// Appending one more byte string extends the concatenation at the end.
pub proof fn lemma_concat_bytes_snoc(s: Seq<Seq<u8>>, x: Seq<u8>)
    ensures
        concat_bytes(s.push(x)) == concat_bytes(s) + x,
    decreases s.len(),
{
    if s.len() == 0 {
        assert(s.push(x).drop_first() =~= Seq::<Seq<u8>>::empty());
        assert(s.push(x)[0] == x);
        assert(concat_bytes(s.push(x)) == x + concat_bytes(s.push(x).drop_first()));
        assert(concat_bytes(s.push(x)) =~= concat_bytes(s) + x);
    } else {
        assert(s.push(x).drop_first() =~= s.drop_first().push(x));
        assert(s.push(x)[0] == s[0]);
        lemma_concat_bytes_snoc(s.drop_first(), x);
        assert(concat_bytes(s.push(x)) == s[0] + concat_bytes(s.drop_first().push(x)));
        assert(concat_bytes(s.push(x)) =~= concat_bytes(s) + x);
    }
}

/// Two concatenations of pairwise prefix-free byte strings that open the
/// same stream are equal, element for element.
pub proof fn lemma_concat_bytes_align(xs: Seq<Seq<u8>>, ys: Seq<Seq<u8>>, ra: Seq<u8>, rb: Seq<u8>)
    requires
        concat_bytes(xs) + ra == concat_bytes(ys) + rb,
        xs.len() == ys.len(),
        forall|i: int, sa: Seq<u8>, sb: Seq<u8>|
            #![trigger xs[i] + sa, ys[i] + sb]
            0 <= i < xs.len() && xs[i] + sa == ys[i] + sb ==> xs[i] == ys[i],
    ensures
        forall|i: int| 0 <= i < xs.len() ==> xs[i] == ys[i],
        ra == rb,
        concat_bytes(xs) == concat_bytes(ys),
    decreases xs.len(),
{
    if xs.len() == 0 {
        assert(concat_bytes(xs) + ra =~= ra);
        assert(concat_bytes(ys) + rb =~= rb);
    } else {
        let ta = concat_bytes(xs.drop_first());
        let tb = concat_bytes(ys.drop_first());
        assert((xs[0] + ta) + ra =~= xs[0] + (ta + ra));
        assert((ys[0] + tb) + rb =~= ys[0] + (tb + rb));
        assert(xs[0] + (ta + ra) == ys[0] + (tb + rb));
        assert(xs[0] == ys[0]);
        lemma_concat_parts(xs[0], ta + ra, ys[0], tb + rb);
        assert forall|i: int, sa: Seq<u8>, sb: Seq<u8>|
            #![trigger xs.drop_first()[i] + sa, ys.drop_first()[i] + sb]
            0 <= i < xs.drop_first().len() && xs.drop_first()[i] + sa == ys.drop_first()[i]
            + sb implies xs.drop_first()[i] == ys.drop_first()[i] by {
            assert(xs.drop_first()[i] == xs[i + 1]);
            assert(ys.drop_first()[i] == ys[i + 1]);
            assert(xs[i + 1] + sa == ys[i + 1] + sb);
        }
        lemma_concat_bytes_align(xs.drop_first(), ys.drop_first(), ra, rb);
        assert forall|i: int| 0 <= i < xs.len() implies xs[i] == ys[i] by {
            if i > 0 {
                assert(xs.drop_first()[i - 1] == xs[i]);
                assert(ys.drop_first()[i - 1] == ys[i]);
            }
        }
        assert(concat_bytes(xs) =~= concat_bytes(ys));
    }
}

/// The wire form of a hop direction.
pub open spec fn enc_direction(d: crate::tracing::Direction) -> Seq<u8> {
    match d {
        crate::tracing::Direction::Outbound => seq![0u8],
        crate::tracing::Direction::Inbound => seq![1u8],
    }
}

/// Append the wire form of a hop direction.
pub fn write_direction(d: crate::tracing::Direction, buf: &mut Vec<u8>)
    ensures
        final(buf)@ == old(buf)@ + enc_direction(d),
{
    buf.push(match d {
        crate::tracing::Direction::Outbound => 0u8,
        crate::tracing::Direction::Inbound => 1u8,
    });
    proof {
        assert(final(buf)@ =~= old(buf)@ + enc_direction(d));
    }
}

/// Read back a hop direction.
pub fn read_direction(bytes: &Vec<u8>, i: usize) -> (r: Option<(crate::tracing::Direction, usize)>)
    ensures
        r matches Some((d, j)) ==> i + 1 == j && j <= bytes@.len() && bytes@.subrange(
            i as int,
            j as int,
        ) == enc_direction(d),
        forall|d: crate::tracing::Direction, rest: Seq<u8>|
            #[trigger] stream_opens(bytes@, i as int, enc_direction(d), rest) ==> r is Some,
{
    proof {
        assert forall|d: crate::tracing::Direction, rest: Seq<u8>|
            #[trigger] stream_opens(bytes@, i as int, enc_direction(d), rest) implies i
            < bytes@.len() && (bytes@[i as int] == 0u8 || bytes@[i as int] == 1u8) by {
            lemma_stream_opens_parts(bytes@, i as int, enc_direction(d), rest);
            assert(bytes@[i as int] == bytes@.subrange(i as int, i + 1 as int)[0]);
        }
    }
    if i < bytes.len() {
        let byte = bytes[i];
        if byte == 0u8 {
            proof {
                assert(bytes@.subrange(i as int, i + 1 as int) =~= enc_direction(
                    crate::tracing::Direction::Outbound,
                ));
            }
            Some((crate::tracing::Direction::Outbound, i + 1))
        } else if byte == 1u8 {
            proof {
                assert(bytes@.subrange(i as int, i + 1 as int) =~= enc_direction(
                    crate::tracing::Direction::Inbound,
                ));
            }
            Some((crate::tracing::Direction::Inbound, i + 1))
        } else {
            None
        }
    } else {
        None
    }
}

/// Two direction encodings that open the same stream carry the same
/// direction.
pub proof fn lemma_enc_direction_prefix(
    a: crate::tracing::Direction,
    b: crate::tracing::Direction,
    ra: Seq<u8>,
    rb: Seq<u8>,
)
    requires
        enc_direction(a) + ra == enc_direction(b) + rb,
    ensures
        enc_direction(a) == enc_direction(b),
        ra == rb,
        a == b,
{
    assert((enc_direction(a) + ra)[0] == enc_direction(a)[0]);
    assert((enc_direction(b) + rb)[0] == enc_direction(b)[0]);
    assert(enc_direction(a)[0] == enc_direction(b)[0]);
    lemma_concat_parts(enc_direction(a), ra, enc_direction(b), rb);
}

/// The wire form of a broadcast payload.
pub open spec fn enc_bm(m: crate::broadcasting::BroadcastMessage) -> Seq<u8> {
    match m {
        crate::broadcasting::BroadcastMessage::Ping => seq![0u8],
        crate::broadcasting::BroadcastMessage::Pong => seq![1u8],
    }
}

/// Append the wire form of a broadcast payload.
pub fn write_bm(m: crate::broadcasting::BroadcastMessage, buf: &mut Vec<u8>)
    ensures
        final(buf)@ == old(buf)@ + enc_bm(m),
{
    buf.push(match m {
        crate::broadcasting::BroadcastMessage::Ping => 0u8,
        crate::broadcasting::BroadcastMessage::Pong => 1u8,
    });
    proof {
        assert(final(buf)@ =~= old(buf)@ + enc_bm(m));
    }
}

/// Read back a broadcast payload.
pub fn read_bm(bytes: &Vec<u8>, i: usize) -> (r: Option<
    (crate::broadcasting::BroadcastMessage, usize),
>)
    ensures
        r matches Some((m, j)) ==> i + 1 == j && j <= bytes@.len() && bytes@.subrange(
            i as int,
            j as int,
        ) == enc_bm(m),
        forall|m: crate::broadcasting::BroadcastMessage, rest: Seq<u8>|
            #[trigger] stream_opens(bytes@, i as int, enc_bm(m), rest) ==> r is Some,
{
    proof {
        assert forall|m: crate::broadcasting::BroadcastMessage, rest: Seq<u8>|
            #[trigger] stream_opens(bytes@, i as int, enc_bm(m), rest) implies i < bytes@.len()
            && (bytes@[i as int] == 0u8 || bytes@[i as int] == 1u8) by {
            lemma_stream_opens_parts(bytes@, i as int, enc_bm(m), rest);
            assert(bytes@[i as int] == bytes@.subrange(i as int, i + 1 as int)[0]);
        }
    }
    if i < bytes.len() {
        let byte = bytes[i];
        if byte == 0u8 {
            proof {
                assert(bytes@.subrange(i as int, i + 1 as int) =~= enc_bm(
                    crate::broadcasting::BroadcastMessage::Ping,
                ));
            }
            Some((crate::broadcasting::BroadcastMessage::Ping, i + 1))
        } else if byte == 1u8 {
            proof {
                assert(bytes@.subrange(i as int, i + 1 as int) =~= enc_bm(
                    crate::broadcasting::BroadcastMessage::Pong,
                ));
            }
            Some((crate::broadcasting::BroadcastMessage::Pong, i + 1))
        } else {
            None
        }
    } else {
        None
    }
}

/// Two broadcast-payload encodings that open the same stream carry the
/// same payload.
pub proof fn lemma_enc_bm_prefix(
    a: crate::broadcasting::BroadcastMessage,
    b: crate::broadcasting::BroadcastMessage,
    ra: Seq<u8>,
    rb: Seq<u8>,
)
    requires
        enc_bm(a) + ra == enc_bm(b) + rb,
    ensures
        enc_bm(a) == enc_bm(b),
        ra == rb,
        a == b,
{
    assert((enc_bm(a) + ra)[0] == enc_bm(a)[0]);
    assert((enc_bm(b) + rb)[0] == enc_bm(b)[0]);
    assert(enc_bm(a)[0] == enc_bm(b)[0]);
    lemma_concat_parts(enc_bm(a), ra, enc_bm(b), rb);
}

/// The wire form of a route row.
pub open spec fn enc_route(r: crate::routing::Route) -> Seq<u8> {
    enc_str(r.gateway_id) + enc_str(r.destination_id) + enc_opt_usize(r.weight)
}

/// A route row whose strings fit the wire.
pub open spec fn encodable_route(r: crate::routing::Route) -> bool {
    encodable_str(r.gateway_id) && encodable_str(r.destination_id)
}

/// Append the wire form of a route row.
pub fn write_route(r: &crate::routing::Route, buf: &mut Vec<u8>)
    ensures
        final(buf)@ == old(buf)@ + enc_route(*r),
        encodable_route(*r),
{
    write_str(&r.gateway_id, buf);
    write_str(&r.destination_id, buf);
    write_opt_usize(&r.weight, buf);
    proof {
        assert(final(buf)@ =~= old(buf)@ + enc_route(*r));
    }
}

/// Read back a route row.
pub fn read_route(bytes: &Vec<u8>, i: usize) -> (r: Option<(crate::routing::Route, usize)>)
    ensures
        r matches Some((v, j)) ==> i <= j <= bytes@.len() && bytes@.subrange(i as int, j as int)
            == enc_route(v) && encodable_route(v),
        forall|v: crate::routing::Route, rest: Seq<u8>|
            encodable_route(v) && #[trigger] stream_opens(bytes@, i as int, enc_route(v), rest)
                ==> r is Some,
{
    proof {
        assert forall|v: crate::routing::Route, rest: Seq<u8>|
            encodable_route(v) && #[trigger] stream_opens(bytes@, i as int, enc_route(v), rest)
            implies stream_opens(
            bytes@,
            i as int,
            enc_str(v.gateway_id),
            enc_str(v.destination_id) + (enc_opt_usize(v.weight) + rest),
        ) by {
            assert(enc_route(v) + rest =~= enc_str(v.gateway_id) + (enc_str(v.destination_id) + (
            enc_opt_usize(v.weight) + rest)));
        }
    }
    let (gateway_id, k1) = match read_str(bytes, i) {
        Some(p) => p,
        None => {
            return None;
        },
    };
    proof {
        assert forall|v: crate::routing::Route, rest: Seq<u8>|
            encodable_route(v) && #[trigger] stream_opens(bytes@, i as int, enc_route(v), rest)
            implies stream_opens(
            bytes@,
            k1 as int,
            enc_str(v.destination_id),
            enc_opt_usize(v.weight) + rest,
        ) by {
            lemma_stream_feed(
                bytes@,
                i as int,
                k1 as int,
                enc_str(v.gateway_id),
                enc_str(v.destination_id) + (enc_opt_usize(v.weight) + rest),
            );
            lemma_enc_str_prefix(
                gateway_id,
                v.gateway_id,
                bytes@.skip(k1 as int),
                enc_str(v.destination_id) + (enc_opt_usize(v.weight) + rest),
            );
        }
    }
    let (destination_id, k2) = match read_str(bytes, k1) {
        Some(p) => p,
        None => {
            return None;
        },
    };
    proof {
        assert forall|v: crate::routing::Route, rest: Seq<u8>|
            encodable_route(v) && #[trigger] stream_opens(bytes@, i as int, enc_route(v), rest)
            implies stream_opens(bytes@, k2 as int, enc_opt_usize(v.weight), rest) by {
            lemma_stream_feed(
                bytes@,
                k1 as int,
                k2 as int,
                enc_str(v.destination_id),
                enc_opt_usize(v.weight) + rest,
            );
            lemma_enc_str_prefix(
                destination_id,
                v.destination_id,
                bytes@.skip(k2 as int),
                enc_opt_usize(v.weight) + rest,
            );
        }
    }
    let (weight, j) = match read_opt_usize(bytes, k2) {
        Some(p) => p,
        None => {
            return None;
        },
    };
    let v = crate::routing::Route { gateway_id, destination_id, weight };
    proof {
        assert(bytes@.subrange(i as int, j as int) =~= enc_route(v));
    }
    Some((v, j))
}

/// Two route encodings that open the same stream carry equal rows.
pub proof fn lemma_enc_route_prefix(
    a: crate::routing::Route,
    b: crate::routing::Route,
    ra: Seq<u8>,
    rb: Seq<u8>,
)
    requires
        enc_route(a) + ra == enc_route(b) + rb,
        encodable_route(a),
        encodable_route(b),
    ensures
        enc_route(a) == enc_route(b),
        ra == rb,
        a.eqv(b),
{
    assert(enc_route(a) + ra =~= enc_str(a.gateway_id) + (enc_str(a.destination_id) + (enc_opt_usize(
        a.weight,
    ) + ra)));
    assert(enc_route(b) + rb =~= enc_str(b.gateway_id) + (enc_str(b.destination_id) + (enc_opt_usize(
        b.weight,
    ) + rb)));
    lemma_enc_str_prefix(
        a.gateway_id,
        b.gateway_id,
        enc_str(a.destination_id) + (enc_opt_usize(a.weight) + ra),
        enc_str(b.destination_id) + (enc_opt_usize(b.weight) + rb),
    );
    lemma_enc_str_prefix(
        a.destination_id,
        b.destination_id,
        enc_opt_usize(a.weight) + ra,
        enc_opt_usize(b.weight) + rb,
    );
    lemma_enc_opt_usize_prefix(a.weight, b.weight, ra, rb);
    assert(enc_route(a) =~= enc_route(b));
}

/// The wire form of a route row, as a map step.
pub open spec fn enc_route_fn() -> spec_fn(crate::routing::Route) -> Seq<u8> {
    |r: crate::routing::Route| enc_route(r)
}

/// The wire form of a route list: its length, then its rows.
pub open spec fn enc_route_seq(v: Seq<crate::routing::Route>) -> Seq<u8> {
    enc_u64(v.len() as u64) + concat_bytes(v.map_values(enc_route_fn()))
}

/// A route list that fits the wire.
pub open spec fn encodable_route_seq(v: Seq<crate::routing::Route>) -> bool {
    v.len() < 0x1_0000_0000_0000_0000 && forall|i: int|
        0 <= i < v.len() ==> encodable_route(#[trigger] v[i])
}

/// Append the wire form of a route list.
pub fn write_route_seq(v: &Vec<crate::routing::Route>, buf: &mut Vec<u8>)
    ensures
        final(buf)@ == old(buf)@ + enc_route_seq(v@),
        encodable_route_seq(v@),
{
    write_u64(v.len() as u64, buf);
    let ghost base = buf@;
    let mut i: usize = 0;
    while i < v.len()
        invariant
            0 <= i <= v@.len(),
            buf@ == base + concat_bytes(v@.take(i as int).map_values(enc_route_fn())),
            forall|k: int| 0 <= k < i ==> encodable_route(#[trigger] v@[k]),
        decreases v@.len() - i,
    {
        write_route(&v[i], buf);
        proof {
            assert(v@.take(i + 1 as int).map_values(enc_route_fn()) =~~= v@.take(
                i as int,
            ).map_values(enc_route_fn()).push(enc_route(v@[i as int])));
            lemma_concat_bytes_snoc(v@.take(i as int).map_values(enc_route_fn()), enc_route(v@[i as int]));
            assert(buf@ =~= base + concat_bytes(v@.take(i + 1 as int).map_values(enc_route_fn())));
        }
        i = i + 1;
    }
    proof {
        assert(v@.take(v@.len() as int) =~= v@);
        assert(final(buf)@ =~= old(buf)@ + enc_route_seq(v@));
    }
}

/// Read back a route list.
pub fn read_route_seq(bytes: &Vec<u8>, i: usize) -> (r: Option<
    (Vec<crate::routing::Route>, usize),
>)
    ensures
        r matches Some((v, j)) ==> i <= j <= bytes@.len() && bytes@.subrange(i as int, j as int)
            == enc_route_seq(v@) && encodable_route_seq(v@),
        forall|v: Seq<crate::routing::Route>, rest: Seq<u8>|
            encodable_route_seq(v) && #[trigger] stream_opens(bytes@, i as int, enc_route_seq(v), rest)
                ==> r is Some,
{
    proof {
        assert forall|v: Seq<crate::routing::Route>, rest: Seq<u8>|
            encodable_route_seq(v) && #[trigger] stream_opens(
                bytes@,
                i as int,
                enc_route_seq(v),
                rest,
            ) implies stream_opens(
            bytes@,
            i as int,
            enc_u64(v.len() as u64),
            concat_bytes(v.map_values(enc_route_fn())) + rest,
        ) by {
            assert(enc_route_seq(v) + rest =~= enc_u64(v.len() as u64) + (concat_bytes(
                v.map_values(enc_route_fn()),
            ) + rest));
        }
    }
    let (n, k) = match read_u64(bytes, i) {
        Some(p) => p,
        None => {
            return None;
        },
    };
    proof {
        assert forall|v: Seq<crate::routing::Route>, rest: Seq<u8>|
            encodable_route_seq(v) && #[trigger] stream_opens(
                bytes@,
                i as int,
                enc_route_seq(v),
                rest,
            ) implies v.len() == n && stream_opens(
            bytes@,
            k as int,
            concat_bytes(v.skip(0).map_values(enc_route_fn())),
            rest,
        ) by {
            lemma_auto_spec_u64_to_from_le_bytes();
            lemma_stream_feed(
                bytes@,
                i as int,
                k as int,
                enc_u64(v.len() as u64),
                concat_bytes(v.map_values(enc_route_fn())) + rest,
            );
            lemma_concat_parts(
                enc_u64(n),
                bytes@.skip(k as int),
                enc_u64(v.len() as u64),
                concat_bytes(v.map_values(enc_route_fn())) + rest,
            );
            assert(spec_u64_from_le_bytes(enc_u64(n)) == spec_u64_from_le_bytes(
                enc_u64(v.len() as u64),
            ));
            assert(v.skip(0) =~= v);
        }
    }
    let mut out: Vec<crate::routing::Route> = Vec::new();
    let mut cur = k;
    let mut c: u64 = 0;
    while c < n
        invariant
            i + 8 == k,
            k <= cur <= bytes@.len(),
            c <= n,
            out@.len() == c,
            bytes@.subrange(k as int, cur as int) == concat_bytes(
                out@.map_values(enc_route_fn()),
            ),
            forall|t: int| 0 <= t < out@.len() ==> encodable_route(#[trigger] out@[t]),
            forall|v: Seq<crate::routing::Route>, rest: Seq<u8>|
                encodable_route_seq(v) && #[trigger] stream_opens(
                    bytes@,
                    i as int,
                    enc_route_seq(v),
                    rest,
                ) ==> v.len() == n && stream_opens(
                    bytes@,
                    cur as int,
                    concat_bytes(v.skip(c as int).map_values(enc_route_fn())),
                    rest,
                ),
        decreases n - c,
    {
        proof {
            assert forall|v: Seq<crate::routing::Route>, rest: Seq<u8>|
                encodable_route_seq(v) && #[trigger] stream_opens(
                    bytes@,
                    i as int,
                    enc_route_seq(v),
                    rest,
                ) implies stream_opens(
                bytes@,
                cur as int,
                enc_route(v[c as int]),
                concat_bytes(v.skip(c + 1).map_values(enc_route_fn())) + rest,
            ) && encodable_route(v[c as int]) by {
                let s = v.skip(c as int).map_values(enc_route_fn());
                assert(s[0] == enc_route(v[c as int]));
                assert(s.drop_first() =~= v.skip(c + 1).map_values(enc_route_fn()));
                assert(concat_bytes(s) == s[0] + concat_bytes(s.drop_first()));
                assert(concat_bytes(s) + rest =~= enc_route(v[c as int]) + (concat_bytes(
                    v.skip(c + 1).map_values(enc_route_fn()),
                ) + rest));
            }
        }
        let (row, j) = match read_route(bytes, cur) {
            Some(p) => p,
            None => {
                return None;
            },
        };
        proof {
            assert forall|v: Seq<crate::routing::Route>, rest: Seq<u8>|
                encodable_route_seq(v) && #[trigger] stream_opens(
                    bytes@,
                    i as int,
                    enc_route_seq(v),
                    rest,
                ) implies stream_opens(
                bytes@,
                j as int,
                concat_bytes(v.skip(c + 1).map_values(enc_route_fn())),
                rest,
            ) by {
                lemma_stream_feed(
                    bytes@,
                    cur as int,
                    j as int,
                    enc_route(v[c as int]),
                    concat_bytes(v.skip(c + 1).map_values(enc_route_fn())) + rest,
                );
                lemma_enc_route_prefix(
                    row,
                    v[c as int],
                    bytes@.skip(j as int),
                    concat_bytes(v.skip(c + 1).map_values(enc_route_fn())) + rest,
                );
            }
            assert(out@.push(row).map_values(enc_route_fn()) =~~= out@.map_values(
                enc_route_fn(),
            ).push(enc_route(row)));
            lemma_concat_bytes_snoc(out@.map_values(enc_route_fn()), enc_route(row));
            assert(bytes@.subrange(k as int, j as int) =~= bytes@.subrange(k as int, cur as int)
                + bytes@.subrange(cur as int, j as int));
        }
        out.push(row);
        cur = j;
        c = c + 1;
    }
    proof {
        lemma_auto_spec_u64_to_from_le_bytes();
        assert(bytes@.subrange(i as int, cur as int) =~= bytes@.subrange(i as int, k as int)
            + bytes@.subrange(k as int, cur as int));
        assert(bytes@.subrange(i as int, cur as int) =~= enc_route_seq(out@));
    }
    Some((out, cur))
}

/// Two route-list encodings that open the same stream carry equal lists.
pub proof fn lemma_enc_route_seq_prefix(
    a: Seq<crate::routing::Route>,
    b: Seq<crate::routing::Route>,
    ra: Seq<u8>,
    rb: Seq<u8>,
)
    requires
        enc_route_seq(a) + ra == enc_route_seq(b) + rb,
        encodable_route_seq(a),
        encodable_route_seq(b),
    ensures
        enc_route_seq(a) == enc_route_seq(b),
        ra == rb,
        crate::routing::route_seq_eqv(a, b),
{
    lemma_auto_spec_u64_to_from_le_bytes();
    let xs = a.map_values(enc_route_fn());
    let ys = b.map_values(enc_route_fn());
    assert(enc_route_seq(a) + ra =~= enc_u64(a.len() as u64) + (concat_bytes(xs) + ra));
    assert(enc_route_seq(b) + rb =~= enc_u64(b.len() as u64) + (concat_bytes(ys) + rb));
    lemma_concat_parts(
        enc_u64(a.len() as u64),
        concat_bytes(xs) + ra,
        enc_u64(b.len() as u64),
        concat_bytes(ys) + rb,
    );
    assert(spec_u64_from_le_bytes(enc_u64(a.len() as u64)) == spec_u64_from_le_bytes(
        enc_u64(b.len() as u64),
    ));
    assert(a.len() == b.len());
    assert forall|t: int, sa: Seq<u8>, sb: Seq<u8>|
        #![trigger xs[t] + sa, ys[t] + sb]
        0 <= t < xs.len() && xs[t] + sa == ys[t] + sb implies xs[t] == ys[t] by {
        lemma_enc_route_prefix(a[t], b[t], sa, sb);
    }
    lemma_concat_bytes_align(xs, ys, ra, rb);
    assert forall|t: int| 0 <= t < a.len() implies #[trigger] a[t].eqv(b[t]) by {
        assert(xs[t] == ys[t]);
        assert(enc_route(a[t]) + Seq::<u8>::empty() =~= enc_route(a[t]));
        assert(enc_route(b[t]) + Seq::<u8>::empty() =~= enc_route(b[t]));
        lemma_enc_route_prefix(a[t], b[t], Seq::<u8>::empty(), Seq::<u8>::empty());
    }
    assert(enc_route_seq(a) =~= enc_route_seq(b));
}

/// Two flag encodings that open the same stream carry the same flag.
pub proof fn lemma_enc_bool_prefix(a: bool, b: bool, ra: Seq<u8>, rb: Seq<u8>)
    requires
        enc_bool(a) + ra == enc_bool(b) + rb,
    ensures
        enc_bool(a) == enc_bool(b),
        ra == rb,
        a == b,
{
    assert((enc_bool(a) + ra)[0] == enc_bool(a)[0]);
    assert((enc_bool(b) + rb)[0] == enc_bool(b)[0]);
    assert(enc_bool(a)[0] == enc_bool(b)[0]);
    lemma_concat_parts(enc_bool(a), ra, enc_bool(b), rb);
}

/// The wire form of this value.
pub open spec fn enc_trace_event(r: crate::tracing::TraceEvent) -> Seq<u8> {
    enc_u64(r.hop_count as u64) + enc_str(r.request_id) + enc_u64(r.local_time) + enc_str(r.id) + enc_direction(r.direction)
}

/// A value whose strings and lists fit the wire.
pub open spec fn encodable_trace_event(r: crate::tracing::TraceEvent) -> bool {
    encodable_str(r.request_id) && encodable_str(r.id)
}

/// Append the wire form.
pub fn write_trace_event(r: &crate::tracing::TraceEvent, buf: &mut Vec<u8>)
    ensures
        final(buf)@ == old(buf)@ + enc_trace_event(*r),
        encodable_trace_event(*r),
{
    write_u64(r.hop_count as u64, buf);
    write_str(&r.request_id, buf);
    write_u64(r.local_time, buf);
    write_str(&r.id, buf);
    write_direction(r.direction, buf);
    proof {
        assert(final(buf)@ =~= old(buf)@ + enc_trace_event(*r));
    }
}

/// Read the value back.
pub fn read_trace_event(bytes: &Vec<u8>, i: usize) -> (r: Option<(crate::tracing::TraceEvent, usize)>)
    ensures
        r matches Some((v, j)) ==> i <= j <= bytes@.len() && bytes@.subrange(i as int, j as int)
            == enc_trace_event(v) && encodable_trace_event(v),
        forall|v: crate::tracing::TraceEvent, rest: Seq<u8>|
            encodable_trace_event(v) && #[trigger] stream_opens(
                bytes@,
                i as int,
                enc_trace_event(v),
                rest,
            ) ==> r is Some,
{
    proof {
        assert forall|v: crate::tracing::TraceEvent, rest: Seq<u8>|
            encodable_trace_event(v) && #[trigger] stream_opens(
                bytes@,
                i as int,
                enc_trace_event(v),
                rest,
            ) implies stream_opens(
            bytes@,
            i as int,
            enc_u64(v.hop_count as u64),
            enc_str(v.request_id) + (enc_u64(v.local_time) + (enc_str(v.id) + (enc_direction(
                v.direction,
            ) + rest))),
        ) by {
            assert(enc_trace_event(v) + rest =~= enc_u64(v.hop_count as u64) + (enc_str(
                v.request_id,
            ) + (enc_u64(v.local_time) + (enc_str(v.id) + (enc_direction(v.direction) + rest)))));
        }
    }
    let (hop_count64, k0) = match read_u64(bytes, i) {
        Some(p) => p,
        None => { return None; },
    };
    proof {
        assert forall|v: crate::tracing::TraceEvent, rest: Seq<u8>|
            encodable_trace_event(v) && #[trigger] stream_opens(
                bytes@,
                i as int,
                enc_trace_event(v),
                rest,
            ) implies hop_count64 == v.hop_count as u64 && stream_opens(
            bytes@,
            k0 as int,
            enc_str(v.request_id),
            enc_u64(v.local_time) + (enc_str(v.id) + (enc_direction(v.direction) + rest)),
        ) by {
            lemma_auto_spec_u64_to_from_le_bytes();
            lemma_stream_feed(
                bytes@,
                i as int,
                k0 as int,
                enc_u64(v.hop_count as u64),
                enc_str(v.request_id) + (enc_u64(v.local_time) + (enc_str(v.id) + (enc_direction(
                    v.direction,
                ) + rest))),
            );
            lemma_concat_parts(
                enc_u64(hop_count64),
                bytes@.skip(k0 as int),
                enc_u64(v.hop_count as u64),
                enc_str(v.request_id) + (enc_u64(v.local_time) + (enc_str(v.id) + (enc_direction(
                    v.direction,
                ) + rest))),
            );
            assert(spec_u64_from_le_bytes(enc_u64(hop_count64)) == spec_u64_from_le_bytes(
                enc_u64(v.hop_count as u64),
            ));
        }
    }
    if hop_count64 > (usize::MAX) as u64 { return None; }
    let hop_count = hop_count64 as usize;
    let (request_id, k1) = match read_str(bytes, k0) {
        Some(p) => p,
        None => { return None; },
    };
    proof {
        assert forall|v: crate::tracing::TraceEvent, rest: Seq<u8>|
            encodable_trace_event(v) && #[trigger] stream_opens(
                bytes@,
                i as int,
                enc_trace_event(v),
                rest,
            ) implies stream_opens(
            bytes@,
            k1 as int,
            enc_u64(v.local_time),
            enc_str(v.id) + (enc_direction(v.direction) + rest),
        ) by {
            lemma_stream_feed(
                bytes@,
                k0 as int,
                k1 as int,
                enc_str(v.request_id),
                enc_u64(v.local_time) + (enc_str(v.id) + (enc_direction(v.direction) + rest)),
            );
            lemma_enc_str_prefix(
                request_id,
                v.request_id,
                bytes@.skip(k1 as int),
                enc_u64(v.local_time) + (enc_str(v.id) + (enc_direction(v.direction) + rest)),
            );
        }
    }
    let (local_time, k2) = match read_u64(bytes, k1) {
        Some(p) => p,
        None => { return None; },
    };
    proof {
        assert forall|v: crate::tracing::TraceEvent, rest: Seq<u8>|
            encodable_trace_event(v) && #[trigger] stream_opens(
                bytes@,
                i as int,
                enc_trace_event(v),
                rest,
            ) implies stream_opens(
            bytes@,
            k2 as int,
            enc_str(v.id),
            enc_direction(v.direction) + rest,
        ) by {
            lemma_auto_spec_u64_to_from_le_bytes();
            lemma_stream_feed(
                bytes@,
                k1 as int,
                k2 as int,
                enc_u64(v.local_time),
                enc_str(v.id) + (enc_direction(v.direction) + rest),
            );
            lemma_concat_parts(
                enc_u64(local_time),
                bytes@.skip(k2 as int),
                enc_u64(v.local_time),
                enc_str(v.id) + (enc_direction(v.direction) + rest),
            );
        }
    }
    let (id, k3) = match read_str(bytes, k2) {
        Some(p) => p,
        None => { return None; },
    };
    proof {
        assert forall|v: crate::tracing::TraceEvent, rest: Seq<u8>|
            encodable_trace_event(v) && #[trigger] stream_opens(
                bytes@,
                i as int,
                enc_trace_event(v),
                rest,
            ) implies stream_opens(bytes@, k3 as int, enc_direction(v.direction), rest) by {
            lemma_stream_feed(
                bytes@,
                k2 as int,
                k3 as int,
                enc_str(v.id),
                enc_direction(v.direction) + rest,
            );
            lemma_enc_str_prefix(
                id,
                v.id,
                bytes@.skip(k3 as int),
                enc_direction(v.direction) + rest,
            );
        }
    }
    let (direction, k4) = match read_direction(bytes, k3) {
        Some(p) => p,
        None => { return None; },
    };
    let v = crate::tracing::TraceEvent { hop_count, request_id, local_time, id, direction };
    proof {
        assert(bytes@.subrange(i as int, k4 as int) =~= enc_trace_event(v));
    }
    Some((v, k4))
}

/// Two encodings that open the same stream carry equal values.
pub proof fn lemma_enc_trace_event_prefix(a: crate::tracing::TraceEvent, b: crate::tracing::TraceEvent, ra: Seq<u8>, rb: Seq<u8>)
    requires
        enc_trace_event(a) + ra == enc_trace_event(b) + rb,
        encodable_trace_event(a),
        encodable_trace_event(b),
    ensures
        enc_trace_event(a) == enc_trace_event(b),
        ra == rb,
        a.eqv(b),
{
    assert(enc_trace_event(a) + ra =~= enc_u64(a.hop_count as u64) + (enc_str(a.request_id) + (enc_u64(a.local_time) + (enc_str(a.id) + (enc_direction(a.direction) + (ra))))));
    assert(enc_trace_event(b) + rb =~= enc_u64(b.hop_count as u64) + (enc_str(b.request_id) + (enc_u64(b.local_time) + (enc_str(b.id) + (enc_direction(b.direction) + (rb))))));
    lemma_auto_spec_u64_to_from_le_bytes();
    lemma_concat_parts(enc_u64(a.hop_count as u64), enc_str(a.request_id) + (enc_u64(a.local_time) + (enc_str(a.id) + (enc_direction(a.direction) + (ra)))), enc_u64(b.hop_count as u64), enc_str(b.request_id) + (enc_u64(b.local_time) + (enc_str(b.id) + (enc_direction(b.direction) + (rb)))));
    assert(spec_u64_from_le_bytes(enc_u64(a.hop_count as u64)) == spec_u64_from_le_bytes(enc_u64(b.hop_count as u64)));
    assert(a.hop_count == b.hop_count);
    lemma_enc_str_prefix(a.request_id, b.request_id, enc_u64(a.local_time) + (enc_str(a.id) + (enc_direction(a.direction) + (ra))), enc_u64(b.local_time) + (enc_str(b.id) + (enc_direction(b.direction) + (rb))));
    lemma_concat_parts(enc_u64(a.local_time), enc_str(a.id) + (enc_direction(a.direction) + (ra)), enc_u64(b.local_time), enc_str(b.id) + (enc_direction(b.direction) + (rb)));
    assert(spec_u64_from_le_bytes(enc_u64(a.local_time)) == spec_u64_from_le_bytes(enc_u64(b.local_time)));
    lemma_enc_str_prefix(a.id, b.id, enc_direction(a.direction) + (ra), enc_direction(b.direction) + (rb));
    lemma_enc_direction_prefix(a.direction, b.direction, ra, rb);
    assert(enc_trace_event(a) =~= enc_trace_event(b));
}

/// The wire form of one element, as a map step.
pub open spec fn enc_trace_event_fn() -> spec_fn(crate::tracing::TraceEvent) -> Seq<u8> {
    |r: crate::tracing::TraceEvent| enc_trace_event(r)
}

/// The wire form of a list: its length, then its elements.
pub open spec fn enc_trace_event_seq(v: Seq<crate::tracing::TraceEvent>) -> Seq<u8> {
    enc_u64(v.len() as u64) + concat_bytes(v.map_values(enc_trace_event_fn()))
}

/// A list that fits the wire.
pub open spec fn encodable_trace_event_seq(v: Seq<crate::tracing::TraceEvent>) -> bool {
    v.len() < 0x1_0000_0000_0000_0000 && forall|i: int|
        0 <= i < v.len() ==> encodable_trace_event(#[trigger] v[i])
}

/// Append the wire form of the list.
pub fn write_trace_event_seq(v: &Vec<crate::tracing::TraceEvent>, buf: &mut Vec<u8>)
    ensures
        final(buf)@ == old(buf)@ + enc_trace_event_seq(v@),
        encodable_trace_event_seq(v@),
{
    write_u64(v.len() as u64, buf);
    let ghost base = buf@;
    let mut i: usize = 0;
    while i < v.len()
        invariant
            0 <= i <= v@.len(),
            buf@ == base + concat_bytes(v@.take(i as int).map_values(enc_trace_event_fn())),
            forall|k: int| 0 <= k < i ==> encodable_trace_event(#[trigger] v@[k]),
        decreases v@.len() - i,
    {
        write_trace_event(&v[i], buf);
        proof {
            assert(v@.take(i + 1 as int).map_values(enc_trace_event_fn()) =~~= v@.take(
                i as int,
            ).map_values(enc_trace_event_fn()).push(enc_trace_event(v@[i as int])));
            lemma_concat_bytes_snoc(v@.take(i as int).map_values(enc_trace_event_fn()), enc_trace_event(v@[i as int]));
            assert(buf@ =~= base + concat_bytes(v@.take(i + 1 as int).map_values(enc_trace_event_fn())));
        }
        i = i + 1;
    }
    proof {
        assert(v@.take(v@.len() as int) =~= v@);
        assert(final(buf)@ =~= old(buf)@ + enc_trace_event_seq(v@));
    }
}

/// Read the list back.
pub fn read_trace_event_seq(bytes: &Vec<u8>, i: usize) -> (r: Option<
    (Vec<crate::tracing::TraceEvent>, usize),
>)
    ensures
        r matches Some((v, j)) ==> i <= j <= bytes@.len() && bytes@.subrange(i as int, j as int)
            == enc_trace_event_seq(v@) && encodable_trace_event_seq(v@),
        forall|v: Seq<crate::tracing::TraceEvent>, rest: Seq<u8>|
            encodable_trace_event_seq(v) && #[trigger] stream_opens(bytes@, i as int, enc_trace_event_seq(v), rest)
                ==> r is Some,
{
    proof {
        assert forall|v: Seq<crate::tracing::TraceEvent>, rest: Seq<u8>|
            encodable_trace_event_seq(v) && #[trigger] stream_opens(
                bytes@,
                i as int,
                enc_trace_event_seq(v),
                rest,
            ) implies stream_opens(
            bytes@,
            i as int,
            enc_u64(v.len() as u64),
            concat_bytes(v.map_values(enc_trace_event_fn())) + rest,
        ) by {
            assert(enc_trace_event_seq(v) + rest =~= enc_u64(v.len() as u64) + (concat_bytes(
                v.map_values(enc_trace_event_fn()),
            ) + rest));
        }
    }
    let (n, k) = match read_u64(bytes, i) {
        Some(p) => p,
        None => {
            return None;
        },
    };
    proof {
        assert forall|v: Seq<crate::tracing::TraceEvent>, rest: Seq<u8>|
            encodable_trace_event_seq(v) && #[trigger] stream_opens(
                bytes@,
                i as int,
                enc_trace_event_seq(v),
                rest,
            ) implies v.len() == n && stream_opens(
            bytes@,
            k as int,
            concat_bytes(v.skip(0).map_values(enc_trace_event_fn())),
            rest,
        ) by {
            lemma_auto_spec_u64_to_from_le_bytes();
            lemma_stream_feed(
                bytes@,
                i as int,
                k as int,
                enc_u64(v.len() as u64),
                concat_bytes(v.map_values(enc_trace_event_fn())) + rest,
            );
            lemma_concat_parts(
                enc_u64(n),
                bytes@.skip(k as int),
                enc_u64(v.len() as u64),
                concat_bytes(v.map_values(enc_trace_event_fn())) + rest,
            );
            assert(spec_u64_from_le_bytes(enc_u64(n)) == spec_u64_from_le_bytes(
                enc_u64(v.len() as u64),
            ));
            assert(v.skip(0) =~= v);
        }
    }
    let mut out: Vec<crate::tracing::TraceEvent> = Vec::new();
    let mut cur = k;
    let mut c: u64 = 0;
    while c < n
        invariant
            i + 8 == k,
            k <= cur <= bytes@.len(),
            c <= n,
            out@.len() == c,
            bytes@.subrange(k as int, cur as int) == concat_bytes(
                out@.map_values(enc_trace_event_fn()),
            ),
            forall|t: int| 0 <= t < out@.len() ==> encodable_trace_event(#[trigger] out@[t]),
            forall|v: Seq<crate::tracing::TraceEvent>, rest: Seq<u8>|
                encodable_trace_event_seq(v) && #[trigger] stream_opens(
                    bytes@,
                    i as int,
                    enc_trace_event_seq(v),
                    rest,
                ) ==> v.len() == n && stream_opens(
                    bytes@,
                    cur as int,
                    concat_bytes(v.skip(c as int).map_values(enc_trace_event_fn())),
                    rest,
                ),
        decreases n - c,
    {
        proof {
            assert forall|v: Seq<crate::tracing::TraceEvent>, rest: Seq<u8>|
                encodable_trace_event_seq(v) && #[trigger] stream_opens(
                    bytes@,
                    i as int,
                    enc_trace_event_seq(v),
                    rest,
                ) implies stream_opens(
                bytes@,
                cur as int,
                enc_trace_event(v[c as int]),
                concat_bytes(v.skip(c + 1).map_values(enc_trace_event_fn())) + rest,
            ) && encodable_trace_event(v[c as int]) by {
                let s = v.skip(c as int).map_values(enc_trace_event_fn());
                assert(s[0] == enc_trace_event(v[c as int]));
                assert(s.drop_first() =~= v.skip(c + 1).map_values(enc_trace_event_fn()));
                assert(concat_bytes(s) == s[0] + concat_bytes(s.drop_first()));
                assert(concat_bytes(s) + rest =~= enc_trace_event(v[c as int]) + (concat_bytes(
                    v.skip(c + 1).map_values(enc_trace_event_fn()),
                ) + rest));
            }
        }
        let (row, j) = match read_trace_event(bytes, cur) {
            Some(p) => p,
            None => {
                return None;
            },
        };
        proof {
            assert forall|v: Seq<crate::tracing::TraceEvent>, rest: Seq<u8>|
                encodable_trace_event_seq(v) && #[trigger] stream_opens(
                    bytes@,
                    i as int,
                    enc_trace_event_seq(v),
                    rest,
                ) implies stream_opens(
                bytes@,
                j as int,
                concat_bytes(v.skip(c + 1).map_values(enc_trace_event_fn())),
                rest,
            ) by {
                lemma_stream_feed(
                    bytes@,
                    cur as int,
                    j as int,
                    enc_trace_event(v[c as int]),
                    concat_bytes(v.skip(c + 1).map_values(enc_trace_event_fn())) + rest,
                );
                lemma_enc_trace_event_prefix(
                    row,
                    v[c as int],
                    bytes@.skip(j as int),
                    concat_bytes(v.skip(c + 1).map_values(enc_trace_event_fn())) + rest,
                );
            }
            assert(out@.push(row).map_values(enc_trace_event_fn()) =~~= out@.map_values(
                enc_trace_event_fn(),
            ).push(enc_trace_event(row)));
            lemma_concat_bytes_snoc(out@.map_values(enc_trace_event_fn()), enc_trace_event(row));
            assert(bytes@.subrange(k as int, j as int) =~= bytes@.subrange(k as int, cur as int)
                + bytes@.subrange(cur as int, j as int));
        }
        out.push(row);
        cur = j;
        c = c + 1;
    }
    proof {
        lemma_auto_spec_u64_to_from_le_bytes();
        assert(bytes@.subrange(i as int, cur as int) =~= bytes@.subrange(i as int, k as int)
            + bytes@.subrange(k as int, cur as int));
        assert(bytes@.subrange(i as int, cur as int) =~= enc_trace_event_seq(out@));
    }
    Some((out, cur))
}

/// Two list encodings that open the same stream carry equal lists.
pub proof fn lemma_enc_trace_event_seq_prefix(
    a: Seq<crate::tracing::TraceEvent>,
    b: Seq<crate::tracing::TraceEvent>,
    ra: Seq<u8>,
    rb: Seq<u8>,
)
    requires
        enc_trace_event_seq(a) + ra == enc_trace_event_seq(b) + rb,
        encodable_trace_event_seq(a),
        encodable_trace_event_seq(b),
    ensures
        enc_trace_event_seq(a) == enc_trace_event_seq(b),
        ra == rb,
        crate::tracing::trace_event_seq_eqv(a, b),
{
    lemma_auto_spec_u64_to_from_le_bytes();
    let xs = a.map_values(enc_trace_event_fn());
    let ys = b.map_values(enc_trace_event_fn());
    assert(enc_trace_event_seq(a) + ra =~= enc_u64(a.len() as u64) + (concat_bytes(xs) + ra));
    assert(enc_trace_event_seq(b) + rb =~= enc_u64(b.len() as u64) + (concat_bytes(ys) + rb));
    lemma_concat_parts(
        enc_u64(a.len() as u64),
        concat_bytes(xs) + ra,
        enc_u64(b.len() as u64),
        concat_bytes(ys) + rb,
    );
    assert(spec_u64_from_le_bytes(enc_u64(a.len() as u64)) == spec_u64_from_le_bytes(
        enc_u64(b.len() as u64),
    ));
    assert(a.len() == b.len());
    assert forall|t: int, sa: Seq<u8>, sb: Seq<u8>|
        #![trigger xs[t] + sa, ys[t] + sb]
        0 <= t < xs.len() && xs[t] + sa == ys[t] + sb implies xs[t] == ys[t] by {
        lemma_enc_trace_event_prefix(a[t], b[t], sa, sb);
    }
    lemma_concat_bytes_align(xs, ys, ra, rb);
    assert forall|t: int| 0 <= t < a.len() implies #[trigger] a[t].eqv(b[t]) by {
        assert(xs[t] == ys[t]);
        assert(enc_trace_event(a[t]) + Seq::<u8>::empty() =~= enc_trace_event(a[t]));
        assert(enc_trace_event(b[t]) + Seq::<u8>::empty() =~= enc_trace_event(b[t]));
        lemma_enc_trace_event_prefix(a[t], b[t], Seq::<u8>::empty(), Seq::<u8>::empty());
    }
    assert(enc_trace_event_seq(a) =~= enc_trace_event_seq(b));
}


/// The wire form of this value.
pub open spec fn enc_peer(r: crate::peering::Peer) -> Seq<u8> {
    enc_opt_str(r.id) + enc_opt_str(r.url) + enc_bool(r.polling)
}

/// A value whose strings and lists fit the wire.
pub open spec fn encodable_peer(r: crate::peering::Peer) -> bool {
    encodable_opt_str(r.id) && encodable_opt_str(r.url)
}

/// Append the wire form.
pub fn write_peer(r: &crate::peering::Peer, buf: &mut Vec<u8>)
    ensures
        final(buf)@ == old(buf)@ + enc_peer(*r),
        encodable_peer(*r),
{
    write_opt_str(&r.id, buf);
    write_opt_str(&r.url, buf);
    write_bool(r.polling, buf);
    proof {
        assert(final(buf)@ =~= old(buf)@ + enc_peer(*r));
    }
}

/// Read the value back.
pub fn read_peer(bytes: &Vec<u8>, i: usize) -> (r: Option<(crate::peering::Peer, usize)>)
    ensures
        r matches Some((v, j)) ==> i <= j <= bytes@.len() && bytes@.subrange(i as int, j as int)
            == enc_peer(v) && encodable_peer(v),
        forall|v: crate::peering::Peer, rest: Seq<u8>|
            encodable_peer(v) && #[trigger] stream_opens(bytes@, i as int, enc_peer(v), rest)
                ==> r is Some,
{
    proof {
        assert forall|v: crate::peering::Peer, rest: Seq<u8>|
            encodable_peer(v) && #[trigger] stream_opens(bytes@, i as int, enc_peer(v), rest)
            implies stream_opens(bytes@, i as int, enc_opt_str(v.id), enc_opt_str(v.url) + (enc_bool(v.polling) + (rest))) by {
            assert(enc_peer(v) + rest =~= enc_opt_str(v.id) + (enc_opt_str(v.url) + (enc_bool(v.polling) + (rest))));
        }
    }
    let (id, k0) = match read_opt_str(bytes, i) {
        Some(p) => p,
        None => { return None; },
    };
    proof {
        assert forall|v: crate::peering::Peer, rest: Seq<u8>|
            encodable_peer(v) && #[trigger] stream_opens(bytes@, i as int, enc_peer(v), rest)
            implies stream_opens(bytes@, k0 as int, enc_opt_str(v.url), enc_bool(v.polling) + (rest)) by {
            lemma_stream_feed(bytes@, i as int, k0 as int, enc_opt_str(v.id), enc_opt_str(v.url) + (enc_bool(v.polling) + (rest)));
            lemma_enc_opt_str_prefix(id, v.id, bytes@.skip(k0 as int), enc_opt_str(v.url) + (enc_bool(v.polling) + (rest)));
        }
    }
    let (url, k1) = match read_opt_str(bytes, k0) {
        Some(p) => p,
        None => { return None; },
    };
    proof {
        assert forall|v: crate::peering::Peer, rest: Seq<u8>|
            encodable_peer(v) && #[trigger] stream_opens(bytes@, i as int, enc_peer(v), rest)
            implies stream_opens(bytes@, k1 as int, enc_bool(v.polling), rest) by {
            lemma_stream_feed(bytes@, k0 as int, k1 as int, enc_opt_str(v.url), enc_bool(v.polling) + (rest));
            lemma_enc_opt_str_prefix(url, v.url, bytes@.skip(k1 as int), enc_bool(v.polling) + (rest));
        }
    }
    let (polling, k2) = match read_bool(bytes, k1) {
        Some(p) => p,
        None => { return None; },
    };
    let v = crate::peering::Peer { id, url, polling };
    proof {
        assert(bytes@.subrange(i as int, k2 as int) =~= enc_peer(v));
    }
    Some((v, k2))
}

/// Two encodings that open the same stream carry equal values.
pub proof fn lemma_enc_peer_prefix(a: crate::peering::Peer, b: crate::peering::Peer, ra: Seq<u8>, rb: Seq<u8>)
    requires
        enc_peer(a) + ra == enc_peer(b) + rb,
        encodable_peer(a),
        encodable_peer(b),
    ensures
        enc_peer(a) == enc_peer(b),
        ra == rb,
        a.eqv(b),
{
    assert(enc_peer(a) + ra =~= enc_opt_str(a.id) + (enc_opt_str(a.url) + (enc_bool(a.polling) + (ra))));
    assert(enc_peer(b) + rb =~= enc_opt_str(b.id) + (enc_opt_str(b.url) + (enc_bool(b.polling) + (rb))));
    lemma_enc_opt_str_prefix(a.id, b.id, enc_opt_str(a.url) + (enc_bool(a.polling) + (ra)), enc_opt_str(b.url) + (enc_bool(b.polling) + (rb)));
    lemma_enc_opt_str_prefix(a.url, b.url, enc_bool(a.polling) + (ra), enc_bool(b.polling) + (rb));
    lemma_enc_bool_prefix(a.polling, b.polling, ra, rb);
    assert(enc_peer(a) =~= enc_peer(b));
}

/// The wire form of one element, as a map step.
pub open spec fn enc_peer_fn() -> spec_fn(crate::peering::Peer) -> Seq<u8> {
    |r: crate::peering::Peer| enc_peer(r)
}

/// The wire form of a list: its length, then its elements.
pub open spec fn enc_peer_seq(v: Seq<crate::peering::Peer>) -> Seq<u8> {
    enc_u64(v.len() as u64) + concat_bytes(v.map_values(enc_peer_fn()))
}

/// A list that fits the wire.
pub open spec fn encodable_peer_seq(v: Seq<crate::peering::Peer>) -> bool {
    v.len() < 0x1_0000_0000_0000_0000 && forall|i: int|
        0 <= i < v.len() ==> encodable_peer(#[trigger] v[i])
}

/// Append the wire form of the list.
pub fn write_peer_seq(v: &Vec<crate::peering::Peer>, buf: &mut Vec<u8>)
    ensures
        final(buf)@ == old(buf)@ + enc_peer_seq(v@),
        encodable_peer_seq(v@),
{
    write_u64(v.len() as u64, buf);
    let ghost base = buf@;
    let mut i: usize = 0;
    while i < v.len()
        invariant
            0 <= i <= v@.len(),
            buf@ == base + concat_bytes(v@.take(i as int).map_values(enc_peer_fn())),
            forall|k: int| 0 <= k < i ==> encodable_peer(#[trigger] v@[k]),
        decreases v@.len() - i,
    {
        write_peer(&v[i], buf);
        proof {
            assert(v@.take(i + 1 as int).map_values(enc_peer_fn()) =~~= v@.take(
                i as int,
            ).map_values(enc_peer_fn()).push(enc_peer(v@[i as int])));
            lemma_concat_bytes_snoc(v@.take(i as int).map_values(enc_peer_fn()), enc_peer(v@[i as int]));
            assert(buf@ =~= base + concat_bytes(v@.take(i + 1 as int).map_values(enc_peer_fn())));
        }
        i = i + 1;
    }
    proof {
        assert(v@.take(v@.len() as int) =~= v@);
        assert(final(buf)@ =~= old(buf)@ + enc_peer_seq(v@));
    }
}

/// Read the list back.
pub fn read_peer_seq(bytes: &Vec<u8>, i: usize) -> (r: Option<
    (Vec<crate::peering::Peer>, usize),
>)
    ensures
        r matches Some((v, j)) ==> i <= j <= bytes@.len() && bytes@.subrange(i as int, j as int)
            == enc_peer_seq(v@) && encodable_peer_seq(v@),
        forall|v: Seq<crate::peering::Peer>, rest: Seq<u8>|
            encodable_peer_seq(v) && #[trigger] stream_opens(bytes@, i as int, enc_peer_seq(v), rest)
                ==> r is Some,
{
    proof {
        assert forall|v: Seq<crate::peering::Peer>, rest: Seq<u8>|
            encodable_peer_seq(v) && #[trigger] stream_opens(
                bytes@,
                i as int,
                enc_peer_seq(v),
                rest,
            ) implies stream_opens(
            bytes@,
            i as int,
            enc_u64(v.len() as u64),
            concat_bytes(v.map_values(enc_peer_fn())) + rest,
        ) by {
            assert(enc_peer_seq(v) + rest =~= enc_u64(v.len() as u64) + (concat_bytes(
                v.map_values(enc_peer_fn()),
            ) + rest));
        }
    }
    let (n, k) = match read_u64(bytes, i) {
        Some(p) => p,
        None => {
            return None;
        },
    };
    proof {
        assert forall|v: Seq<crate::peering::Peer>, rest: Seq<u8>|
            encodable_peer_seq(v) && #[trigger] stream_opens(
                bytes@,
                i as int,
                enc_peer_seq(v),
                rest,
            ) implies v.len() == n && stream_opens(
            bytes@,
            k as int,
            concat_bytes(v.skip(0).map_values(enc_peer_fn())),
            rest,
        ) by {
            lemma_auto_spec_u64_to_from_le_bytes();
            lemma_stream_feed(
                bytes@,
                i as int,
                k as int,
                enc_u64(v.len() as u64),
                concat_bytes(v.map_values(enc_peer_fn())) + rest,
            );
            lemma_concat_parts(
                enc_u64(n),
                bytes@.skip(k as int),
                enc_u64(v.len() as u64),
                concat_bytes(v.map_values(enc_peer_fn())) + rest,
            );
            assert(spec_u64_from_le_bytes(enc_u64(n)) == spec_u64_from_le_bytes(
                enc_u64(v.len() as u64),
            ));
            assert(v.skip(0) =~= v);
        }
    }
    let mut out: Vec<crate::peering::Peer> = Vec::new();
    let mut cur = k;
    let mut c: u64 = 0;
    while c < n
        invariant
            i + 8 == k,
            k <= cur <= bytes@.len(),
            c <= n,
            out@.len() == c,
            bytes@.subrange(k as int, cur as int) == concat_bytes(
                out@.map_values(enc_peer_fn()),
            ),
            forall|t: int| 0 <= t < out@.len() ==> encodable_peer(#[trigger] out@[t]),
            forall|v: Seq<crate::peering::Peer>, rest: Seq<u8>|
                encodable_peer_seq(v) && #[trigger] stream_opens(
                    bytes@,
                    i as int,
                    enc_peer_seq(v),
                    rest,
                ) ==> v.len() == n && stream_opens(
                    bytes@,
                    cur as int,
                    concat_bytes(v.skip(c as int).map_values(enc_peer_fn())),
                    rest,
                ),
        decreases n - c,
    {
        proof {
            assert forall|v: Seq<crate::peering::Peer>, rest: Seq<u8>|
                encodable_peer_seq(v) && #[trigger] stream_opens(
                    bytes@,
                    i as int,
                    enc_peer_seq(v),
                    rest,
                ) implies stream_opens(
                bytes@,
                cur as int,
                enc_peer(v[c as int]),
                concat_bytes(v.skip(c + 1).map_values(enc_peer_fn())) + rest,
            ) && encodable_peer(v[c as int]) by {
                let s = v.skip(c as int).map_values(enc_peer_fn());
                assert(s[0] == enc_peer(v[c as int]));
                assert(s.drop_first() =~= v.skip(c + 1).map_values(enc_peer_fn()));
                assert(concat_bytes(s) == s[0] + concat_bytes(s.drop_first()));
                assert(concat_bytes(s) + rest =~= enc_peer(v[c as int]) + (concat_bytes(
                    v.skip(c + 1).map_values(enc_peer_fn()),
                ) + rest));
            }
        }
        let (row, j) = match read_peer(bytes, cur) {
            Some(p) => p,
            None => {
                return None;
            },
        };
        proof {
            assert forall|v: Seq<crate::peering::Peer>, rest: Seq<u8>|
                encodable_peer_seq(v) && #[trigger] stream_opens(
                    bytes@,
                    i as int,
                    enc_peer_seq(v),
                    rest,
                ) implies stream_opens(
                bytes@,
                j as int,
                concat_bytes(v.skip(c + 1).map_values(enc_peer_fn())),
                rest,
            ) by {
                lemma_stream_feed(
                    bytes@,
                    cur as int,
                    j as int,
                    enc_peer(v[c as int]),
                    concat_bytes(v.skip(c + 1).map_values(enc_peer_fn())) + rest,
                );
                lemma_enc_peer_prefix(
                    row,
                    v[c as int],
                    bytes@.skip(j as int),
                    concat_bytes(v.skip(c + 1).map_values(enc_peer_fn())) + rest,
                );
            }
            assert(out@.push(row).map_values(enc_peer_fn()) =~~= out@.map_values(
                enc_peer_fn(),
            ).push(enc_peer(row)));
            lemma_concat_bytes_snoc(out@.map_values(enc_peer_fn()), enc_peer(row));
            assert(bytes@.subrange(k as int, j as int) =~= bytes@.subrange(k as int, cur as int)
                + bytes@.subrange(cur as int, j as int));
        }
        out.push(row);
        cur = j;
        c = c + 1;
    }
    proof {
        lemma_auto_spec_u64_to_from_le_bytes();
        assert(bytes@.subrange(i as int, cur as int) =~= bytes@.subrange(i as int, k as int)
            + bytes@.subrange(k as int, cur as int));
        assert(bytes@.subrange(i as int, cur as int) =~= enc_peer_seq(out@));
    }
    Some((out, cur))
}

/// Two list encodings that open the same stream carry equal lists.
pub proof fn lemma_enc_peer_seq_prefix(
    a: Seq<crate::peering::Peer>,
    b: Seq<crate::peering::Peer>,
    ra: Seq<u8>,
    rb: Seq<u8>,
)
    requires
        enc_peer_seq(a) + ra == enc_peer_seq(b) + rb,
        encodable_peer_seq(a),
        encodable_peer_seq(b),
    ensures
        enc_peer_seq(a) == enc_peer_seq(b),
        ra == rb,
        crate::peering::peer_seq_eqv(a, b),
{
    lemma_auto_spec_u64_to_from_le_bytes();
    let xs = a.map_values(enc_peer_fn());
    let ys = b.map_values(enc_peer_fn());
    assert(enc_peer_seq(a) + ra =~= enc_u64(a.len() as u64) + (concat_bytes(xs) + ra));
    assert(enc_peer_seq(b) + rb =~= enc_u64(b.len() as u64) + (concat_bytes(ys) + rb));
    lemma_concat_parts(
        enc_u64(a.len() as u64),
        concat_bytes(xs) + ra,
        enc_u64(b.len() as u64),
        concat_bytes(ys) + rb,
    );
    assert(spec_u64_from_le_bytes(enc_u64(a.len() as u64)) == spec_u64_from_le_bytes(
        enc_u64(b.len() as u64),
    ));
    assert(a.len() == b.len());
    assert forall|t: int, sa: Seq<u8>, sb: Seq<u8>|
        #![trigger xs[t] + sa, ys[t] + sb]
        0 <= t < xs.len() && xs[t] + sa == ys[t] + sb implies xs[t] == ys[t] by {
        lemma_enc_peer_prefix(a[t], b[t], sa, sb);
    }
    lemma_concat_bytes_align(xs, ys, ra, rb);
    assert forall|t: int| 0 <= t < a.len() implies #[trigger] a[t].eqv(b[t]) by {
        assert(xs[t] == ys[t]);
        assert(enc_peer(a[t]) + Seq::<u8>::empty() =~= enc_peer(a[t]));
        assert(enc_peer(b[t]) + Seq::<u8>::empty() =~= enc_peer(b[t]));
        lemma_enc_peer_prefix(a[t], b[t], Seq::<u8>::empty(), Seq::<u8>::empty());
    }
    assert(enc_peer_seq(a) =~= enc_peer_seq(b));
}


/// The wire form of one element, as a map step.
pub open spec fn enc_str_fn() -> spec_fn(String) -> Seq<u8> {
    |r: String| enc_str(r)
}

/// The wire form of a list: its length, then its elements.
pub open spec fn enc_str_seq(v: Seq<String>) -> Seq<u8> {
    enc_u64(v.len() as u64) + concat_bytes(v.map_values(enc_str_fn()))
}

/// A list that fits the wire.
pub open spec fn encodable_str_seq(v: Seq<String>) -> bool {
    v.len() < 0x1_0000_0000_0000_0000 && forall|i: int|
        0 <= i < v.len() ==> encodable_str(#[trigger] v[i])
}

/// Append the wire form of the list.
pub fn write_str_seq(v: &Vec<String>, buf: &mut Vec<u8>)
    ensures
        final(buf)@ == old(buf)@ + enc_str_seq(v@),
        encodable_str_seq(v@),
{
    write_u64(v.len() as u64, buf);
    let ghost base = buf@;
    let mut i: usize = 0;
    while i < v.len()
        invariant
            0 <= i <= v@.len(),
            buf@ == base + concat_bytes(v@.take(i as int).map_values(enc_str_fn())),
            forall|k: int| 0 <= k < i ==> encodable_str(#[trigger] v@[k]),
        decreases v@.len() - i,
    {
        write_str(&v[i], buf);
        proof {
            assert(v@.take(i + 1 as int).map_values(enc_str_fn()) =~~= v@.take(
                i as int,
            ).map_values(enc_str_fn()).push(enc_str(v@[i as int])));
            lemma_concat_bytes_snoc(v@.take(i as int).map_values(enc_str_fn()), enc_str(v@[i as int]));
            assert(buf@ =~= base + concat_bytes(v@.take(i + 1 as int).map_values(enc_str_fn())));
        }
        i = i + 1;
    }
    proof {
        assert(v@.take(v@.len() as int) =~= v@);
        assert(final(buf)@ =~= old(buf)@ + enc_str_seq(v@));
    }
}

/// Read the list back.
pub fn read_str_seq(bytes: &Vec<u8>, i: usize) -> (r: Option<
    (Vec<String>, usize),
>)
    ensures
        r matches Some((v, j)) ==> i <= j <= bytes@.len() && bytes@.subrange(i as int, j as int)
            == enc_str_seq(v@) && encodable_str_seq(v@),
        forall|v: Seq<String>, rest: Seq<u8>|
            encodable_str_seq(v) && #[trigger] stream_opens(bytes@, i as int, enc_str_seq(v), rest)
                ==> r is Some,
{
    proof {
        assert forall|v: Seq<String>, rest: Seq<u8>|
            encodable_str_seq(v) && #[trigger] stream_opens(
                bytes@,
                i as int,
                enc_str_seq(v),
                rest,
            ) implies stream_opens(
            bytes@,
            i as int,
            enc_u64(v.len() as u64),
            concat_bytes(v.map_values(enc_str_fn())) + rest,
        ) by {
            assert(enc_str_seq(v) + rest =~= enc_u64(v.len() as u64) + (concat_bytes(
                v.map_values(enc_str_fn()),
            ) + rest));
        }
    }
    let (n, k) = match read_u64(bytes, i) {
        Some(p) => p,
        None => {
            return None;
        },
    };
    proof {
        assert forall|v: Seq<String>, rest: Seq<u8>|
            encodable_str_seq(v) && #[trigger] stream_opens(
                bytes@,
                i as int,
                enc_str_seq(v),
                rest,
            ) implies v.len() == n && stream_opens(
            bytes@,
            k as int,
            concat_bytes(v.skip(0).map_values(enc_str_fn())),
            rest,
        ) by {
            lemma_auto_spec_u64_to_from_le_bytes();
            lemma_stream_feed(
                bytes@,
                i as int,
                k as int,
                enc_u64(v.len() as u64),
                concat_bytes(v.map_values(enc_str_fn())) + rest,
            );
            lemma_concat_parts(
                enc_u64(n),
                bytes@.skip(k as int),
                enc_u64(v.len() as u64),
                concat_bytes(v.map_values(enc_str_fn())) + rest,
            );
            assert(spec_u64_from_le_bytes(enc_u64(n)) == spec_u64_from_le_bytes(
                enc_u64(v.len() as u64),
            ));
            assert(v.skip(0) =~= v);
        }
    }
    let mut out: Vec<String> = Vec::new();
    let mut cur = k;
    let mut c: u64 = 0;
    while c < n
        invariant
            i + 8 == k,
            k <= cur <= bytes@.len(),
            c <= n,
            out@.len() == c,
            bytes@.subrange(k as int, cur as int) == concat_bytes(
                out@.map_values(enc_str_fn()),
            ),
            forall|t: int| 0 <= t < out@.len() ==> encodable_str(#[trigger] out@[t]),
            forall|v: Seq<String>, rest: Seq<u8>|
                encodable_str_seq(v) && #[trigger] stream_opens(
                    bytes@,
                    i as int,
                    enc_str_seq(v),
                    rest,
                ) ==> v.len() == n && stream_opens(
                    bytes@,
                    cur as int,
                    concat_bytes(v.skip(c as int).map_values(enc_str_fn())),
                    rest,
                ),
        decreases n - c,
    {
        proof {
            assert forall|v: Seq<String>, rest: Seq<u8>|
                encodable_str_seq(v) && #[trigger] stream_opens(
                    bytes@,
                    i as int,
                    enc_str_seq(v),
                    rest,
                ) implies stream_opens(
                bytes@,
                cur as int,
                enc_str(v[c as int]),
                concat_bytes(v.skip(c + 1).map_values(enc_str_fn())) + rest,
            ) && encodable_str(v[c as int]) by {
                let s = v.skip(c as int).map_values(enc_str_fn());
                assert(s[0] == enc_str(v[c as int]));
                assert(s.drop_first() =~= v.skip(c + 1).map_values(enc_str_fn()));
                assert(concat_bytes(s) == s[0] + concat_bytes(s.drop_first()));
                assert(concat_bytes(s) + rest =~= enc_str(v[c as int]) + (concat_bytes(
                    v.skip(c + 1).map_values(enc_str_fn()),
                ) + rest));
            }
        }
        let (row, j) = match read_str(bytes, cur) {
            Some(p) => p,
            None => {
                return None;
            },
        };
        proof {
            assert forall|v: Seq<String>, rest: Seq<u8>|
                encodable_str_seq(v) && #[trigger] stream_opens(
                    bytes@,
                    i as int,
                    enc_str_seq(v),
                    rest,
                ) implies stream_opens(
                bytes@,
                j as int,
                concat_bytes(v.skip(c + 1).map_values(enc_str_fn())),
                rest,
            ) by {
                lemma_stream_feed(
                    bytes@,
                    cur as int,
                    j as int,
                    enc_str(v[c as int]),
                    concat_bytes(v.skip(c + 1).map_values(enc_str_fn())) + rest,
                );
                lemma_enc_str_prefix(
                    row,
                    v[c as int],
                    bytes@.skip(j as int),
                    concat_bytes(v.skip(c + 1).map_values(enc_str_fn())) + rest,
                );
            }
            assert(out@.push(row).map_values(enc_str_fn()) =~~= out@.map_values(
                enc_str_fn(),
            ).push(enc_str(row)));
            lemma_concat_bytes_snoc(out@.map_values(enc_str_fn()), enc_str(row));
            assert(bytes@.subrange(k as int, j as int) =~= bytes@.subrange(k as int, cur as int)
                + bytes@.subrange(cur as int, j as int));
        }
        out.push(row);
        cur = j;
        c = c + 1;
    }
    proof {
        lemma_auto_spec_u64_to_from_le_bytes();
        assert(bytes@.subrange(i as int, cur as int) =~= bytes@.subrange(i as int, k as int)
            + bytes@.subrange(k as int, cur as int));
        assert(bytes@.subrange(i as int, cur as int) =~= enc_str_seq(out@));
    }
    Some((out, cur))
}

/// Two list encodings that open the same stream carry equal lists.
pub proof fn lemma_enc_str_seq_prefix(
    a: Seq<String>,
    b: Seq<String>,
    ra: Seq<u8>,
    rb: Seq<u8>,
)
    requires
        enc_str_seq(a) + ra == enc_str_seq(b) + rb,
        encodable_str_seq(a),
        encodable_str_seq(b),
    ensures
        enc_str_seq(a) == enc_str_seq(b),
        ra == rb,
        crate::seq_util::str_seq_eqv(a, b),
{
    lemma_auto_spec_u64_to_from_le_bytes();
    let xs = a.map_values(enc_str_fn());
    let ys = b.map_values(enc_str_fn());
    assert(enc_str_seq(a) + ra =~= enc_u64(a.len() as u64) + (concat_bytes(xs) + ra));
    assert(enc_str_seq(b) + rb =~= enc_u64(b.len() as u64) + (concat_bytes(ys) + rb));
    lemma_concat_parts(
        enc_u64(a.len() as u64),
        concat_bytes(xs) + ra,
        enc_u64(b.len() as u64),
        concat_bytes(ys) + rb,
    );
    assert(spec_u64_from_le_bytes(enc_u64(a.len() as u64)) == spec_u64_from_le_bytes(
        enc_u64(b.len() as u64),
    ));
    assert(a.len() == b.len());
    assert forall|t: int, sa: Seq<u8>, sb: Seq<u8>|
        #![trigger xs[t] + sa, ys[t] + sb]
        0 <= t < xs.len() && xs[t] + sa == ys[t] + sb implies xs[t] == ys[t] by {
        lemma_enc_str_prefix(a[t], b[t], sa, sb);
    }
    lemma_concat_bytes_align(xs, ys, ra, rb);
    assert forall|t: int| 0 <= t < a.len() implies #[trigger] a[t]@ == b[t]@ by {
        assert(xs[t] == ys[t]);
        assert(enc_str(a[t]) + Seq::<u8>::empty() =~= enc_str(a[t]));
        assert(enc_str(b[t]) + Seq::<u8>::empty() =~= enc_str(b[t]));
        lemma_enc_str_prefix(a[t], b[t], Seq::<u8>::empty(), Seq::<u8>::empty());
    }
    assert(enc_str_seq(a) =~= enc_str_seq(b));
}


/// The wire form of this value.
pub open spec fn enc_broadcast_response(r: crate::broadcasting::BroadcastResponse) -> Seq<u8> {
    enc_str(r.request_id) + enc_bm(r.broadcast) + enc_u64(r.local_time)
}

/// A value whose strings and lists fit the wire.
pub open spec fn encodable_broadcast_response(r: crate::broadcasting::BroadcastResponse) -> bool {
    encodable_str(r.request_id)
}

/// Append the wire form.
pub fn write_broadcast_response(r: &crate::broadcasting::BroadcastResponse, buf: &mut Vec<u8>)
    ensures
        final(buf)@ == old(buf)@ + enc_broadcast_response(*r),
        encodable_broadcast_response(*r),
{
    write_str(&r.request_id, buf);
    write_bm(r.broadcast, buf);
    write_u64(r.local_time, buf);
    proof {
        assert(final(buf)@ =~= old(buf)@ + enc_broadcast_response(*r));
    }
}

/// Read the value back.
pub fn read_broadcast_response(bytes: &Vec<u8>, i: usize) -> (r: Option<(crate::broadcasting::BroadcastResponse, usize)>)
    ensures
        r matches Some((v, j)) ==> i <= j <= bytes@.len() && bytes@.subrange(i as int, j as int)
            == enc_broadcast_response(v) && encodable_broadcast_response(v),
        forall|v: crate::broadcasting::BroadcastResponse, rest: Seq<u8>|
            encodable_broadcast_response(v) && #[trigger] stream_opens(bytes@, i as int, enc_broadcast_response(v), rest)
                ==> r is Some,
{
    proof {
        assert forall|v: crate::broadcasting::BroadcastResponse, rest: Seq<u8>|
            encodable_broadcast_response(v) && #[trigger] stream_opens(bytes@, i as int, enc_broadcast_response(v), rest)
            implies stream_opens(bytes@, i as int, enc_str(v.request_id), enc_bm(v.broadcast) + (enc_u64(v.local_time) + (rest))) by {
            assert(enc_broadcast_response(v) + rest =~= enc_str(v.request_id) + (enc_bm(v.broadcast) + (enc_u64(v.local_time) + (rest))));
        }
    }
    let (request_id, k0) = match read_str(bytes, i) {
        Some(p) => p,
        None => { return None; },
    };
    proof {
        assert forall|v: crate::broadcasting::BroadcastResponse, rest: Seq<u8>|
            encodable_broadcast_response(v) && #[trigger] stream_opens(bytes@, i as int, enc_broadcast_response(v), rest)
            implies stream_opens(bytes@, k0 as int, enc_bm(v.broadcast), enc_u64(v.local_time) + (rest)) by {
            lemma_stream_feed(bytes@, i as int, k0 as int, enc_str(v.request_id), enc_bm(v.broadcast) + (enc_u64(v.local_time) + (rest)));
            lemma_enc_str_prefix(request_id, v.request_id, bytes@.skip(k0 as int), enc_bm(v.broadcast) + (enc_u64(v.local_time) + (rest)));
        }
    }
    let (broadcast, k1) = match read_bm(bytes, k0) {
        Some(p) => p,
        None => { return None; },
    };
    proof {
        assert forall|v: crate::broadcasting::BroadcastResponse, rest: Seq<u8>|
            encodable_broadcast_response(v) && #[trigger] stream_opens(bytes@, i as int, enc_broadcast_response(v), rest)
            implies stream_opens(bytes@, k1 as int, enc_u64(v.local_time), rest) by {
            lemma_stream_feed(bytes@, k0 as int, k1 as int, enc_bm(v.broadcast), enc_u64(v.local_time) + (rest));
            lemma_enc_bm_prefix(broadcast, v.broadcast, bytes@.skip(k1 as int), enc_u64(v.local_time) + (rest));
        }
    }
    let (local_time, k2) = match read_u64(bytes, k1) {
        Some(p) => p,
        None => { return None; },
    };
    let v = crate::broadcasting::BroadcastResponse { request_id, broadcast, local_time };
    proof {
        assert(bytes@.subrange(i as int, k2 as int) =~= enc_broadcast_response(v));
    }
    Some((v, k2))
}

/// Two encodings that open the same stream carry equal values.
pub proof fn lemma_enc_broadcast_response_prefix(a: crate::broadcasting::BroadcastResponse, b: crate::broadcasting::BroadcastResponse, ra: Seq<u8>, rb: Seq<u8>)
    requires
        enc_broadcast_response(a) + ra == enc_broadcast_response(b) + rb,
        encodable_broadcast_response(a),
        encodable_broadcast_response(b),
    ensures
        enc_broadcast_response(a) == enc_broadcast_response(b),
        ra == rb,
        a.eqv(b),
{
    assert(enc_broadcast_response(a) + ra =~= enc_str(a.request_id) + (enc_bm(a.broadcast) + (enc_u64(a.local_time) + (ra))));
    assert(enc_broadcast_response(b) + rb =~= enc_str(b.request_id) + (enc_bm(b.broadcast) + (enc_u64(b.local_time) + (rb))));
    lemma_auto_spec_u64_to_from_le_bytes();
    lemma_enc_str_prefix(a.request_id, b.request_id, enc_bm(a.broadcast) + (enc_u64(a.local_time) + (ra)), enc_bm(b.broadcast) + (enc_u64(b.local_time) + (rb)));
    lemma_enc_bm_prefix(a.broadcast, b.broadcast, enc_u64(a.local_time) + (ra), enc_u64(b.local_time) + (rb));
    lemma_concat_parts(enc_u64(a.local_time), ra, enc_u64(b.local_time), rb);
    assert(spec_u64_from_le_bytes(enc_u64(a.local_time)) == spec_u64_from_le_bytes(enc_u64(b.local_time)));
    assert(enc_broadcast_response(a) =~= enc_broadcast_response(b));
}

/// The wire form of this value.
pub open spec fn enc_broadcast_response_entry(r: crate::broadcasting::BroadcastResponseEntry) -> Seq<u8> {
    enc_str(r.origin_id) + enc_broadcast_response(r.response)
}

/// A value whose strings and lists fit the wire.
pub open spec fn encodable_broadcast_response_entry(r: crate::broadcasting::BroadcastResponseEntry) -> bool {
    encodable_str(r.origin_id) && encodable_broadcast_response(r.response)
}

/// Append the wire form.
pub fn write_broadcast_response_entry(r: &crate::broadcasting::BroadcastResponseEntry, buf: &mut Vec<u8>)
    ensures
        final(buf)@ == old(buf)@ + enc_broadcast_response_entry(*r),
        encodable_broadcast_response_entry(*r),
{
    write_str(&r.origin_id, buf);
    write_broadcast_response(&r.response, buf);
    proof {
        assert(final(buf)@ =~= old(buf)@ + enc_broadcast_response_entry(*r));
    }
}

/// Read the value back.
pub fn read_broadcast_response_entry(bytes: &Vec<u8>, i: usize) -> (r: Option<(crate::broadcasting::BroadcastResponseEntry, usize)>)
    ensures
        r matches Some((v, j)) ==> i <= j <= bytes@.len() && bytes@.subrange(i as int, j as int)
            == enc_broadcast_response_entry(v) && encodable_broadcast_response_entry(v),
        forall|v: crate::broadcasting::BroadcastResponseEntry, rest: Seq<u8>|
            encodable_broadcast_response_entry(v) && #[trigger] stream_opens(bytes@, i as int, enc_broadcast_response_entry(v), rest)
                ==> r is Some,
{
    proof {
        assert forall|v: crate::broadcasting::BroadcastResponseEntry, rest: Seq<u8>|
            encodable_broadcast_response_entry(v) && #[trigger] stream_opens(bytes@, i as int, enc_broadcast_response_entry(v), rest)
            implies stream_opens(bytes@, i as int, enc_str(v.origin_id), enc_broadcast_response(v.response) + (rest)) by {
            assert(enc_broadcast_response_entry(v) + rest =~= enc_str(v.origin_id) + (enc_broadcast_response(v.response) + (rest)));
        }
    }
    let (origin_id, k0) = match read_str(bytes, i) {
        Some(p) => p,
        None => { return None; },
    };
    proof {
        assert forall|v: crate::broadcasting::BroadcastResponseEntry, rest: Seq<u8>|
            encodable_broadcast_response_entry(v) && #[trigger] stream_opens(bytes@, i as int, enc_broadcast_response_entry(v), rest)
            implies stream_opens(bytes@, k0 as int, enc_broadcast_response(v.response), rest) by {
            lemma_stream_feed(bytes@, i as int, k0 as int, enc_str(v.origin_id), enc_broadcast_response(v.response) + (rest));
            lemma_enc_str_prefix(origin_id, v.origin_id, bytes@.skip(k0 as int), enc_broadcast_response(v.response) + (rest));
        }
    }
    let (response, k1) = match read_broadcast_response(bytes, k0) {
        Some(p) => p,
        None => { return None; },
    };
    let v = crate::broadcasting::BroadcastResponseEntry { origin_id, response };
    proof {
        assert(bytes@.subrange(i as int, k1 as int) =~= enc_broadcast_response_entry(v));
    }
    Some((v, k1))
}

/// Two encodings that open the same stream carry equal values.
pub proof fn lemma_enc_broadcast_response_entry_prefix(a: crate::broadcasting::BroadcastResponseEntry, b: crate::broadcasting::BroadcastResponseEntry, ra: Seq<u8>, rb: Seq<u8>)
    requires
        enc_broadcast_response_entry(a) + ra == enc_broadcast_response_entry(b) + rb,
        encodable_broadcast_response_entry(a),
        encodable_broadcast_response_entry(b),
    ensures
        enc_broadcast_response_entry(a) == enc_broadcast_response_entry(b),
        ra == rb,
        a.eqv(b),
{
    assert(enc_broadcast_response_entry(a) + ra =~= enc_str(a.origin_id) + (enc_broadcast_response(a.response) + (ra)));
    assert(enc_broadcast_response_entry(b) + rb =~= enc_str(b.origin_id) + (enc_broadcast_response(b.response) + (rb)));
    lemma_enc_str_prefix(a.origin_id, b.origin_id, enc_broadcast_response(a.response) + (ra), enc_broadcast_response(b.response) + (rb));
    lemma_enc_broadcast_response_prefix(a.response, b.response, ra, rb);
    assert(enc_broadcast_response_entry(a) =~= enc_broadcast_response_entry(b));
}

/// The wire form of one element, as a map step.
pub open spec fn enc_broadcast_response_entry_fn() -> spec_fn(crate::broadcasting::BroadcastResponseEntry) -> Seq<u8> {
    |r: crate::broadcasting::BroadcastResponseEntry| enc_broadcast_response_entry(r)
}

/// The wire form of a list: its length, then its elements.
pub open spec fn enc_bre_seq(v: Seq<crate::broadcasting::BroadcastResponseEntry>) -> Seq<u8> {
    enc_u64(v.len() as u64) + concat_bytes(v.map_values(enc_broadcast_response_entry_fn()))
}

/// A list that fits the wire.
pub open spec fn encodable_bre_seq(v: Seq<crate::broadcasting::BroadcastResponseEntry>) -> bool {
    v.len() < 0x1_0000_0000_0000_0000 && forall|i: int|
        0 <= i < v.len() ==> encodable_broadcast_response_entry(#[trigger] v[i])
}

/// Append the wire form of the list.
pub fn write_bre_seq(v: &Vec<crate::broadcasting::BroadcastResponseEntry>, buf: &mut Vec<u8>)
    ensures
        final(buf)@ == old(buf)@ + enc_bre_seq(v@),
        encodable_bre_seq(v@),
{
    write_u64(v.len() as u64, buf);
    let ghost base = buf@;
    let mut i: usize = 0;
    while i < v.len()
        invariant
            0 <= i <= v@.len(),
            buf@ == base + concat_bytes(v@.take(i as int).map_values(enc_broadcast_response_entry_fn())),
            forall|k: int| 0 <= k < i ==> encodable_broadcast_response_entry(#[trigger] v@[k]),
        decreases v@.len() - i,
    {
        write_broadcast_response_entry(&v[i], buf);
        proof {
            assert(v@.take(i + 1 as int).map_values(enc_broadcast_response_entry_fn()) =~~= v@.take(
                i as int,
            ).map_values(enc_broadcast_response_entry_fn()).push(enc_broadcast_response_entry(v@[i as int])));
            lemma_concat_bytes_snoc(v@.take(i as int).map_values(enc_broadcast_response_entry_fn()), enc_broadcast_response_entry(v@[i as int]));
            assert(buf@ =~= base + concat_bytes(v@.take(i + 1 as int).map_values(enc_broadcast_response_entry_fn())));
        }
        i = i + 1;
    }
    proof {
        assert(v@.take(v@.len() as int) =~= v@);
        assert(final(buf)@ =~= old(buf)@ + enc_bre_seq(v@));
    }
}

/// Read the list back.
pub fn read_bre_seq(bytes: &Vec<u8>, i: usize) -> (r: Option<
    (Vec<crate::broadcasting::BroadcastResponseEntry>, usize),
>)
    ensures
        r matches Some((v, j)) ==> i <= j <= bytes@.len() && bytes@.subrange(i as int, j as int)
            == enc_bre_seq(v@) && encodable_bre_seq(v@),
        forall|v: Seq<crate::broadcasting::BroadcastResponseEntry>, rest: Seq<u8>|
            encodable_bre_seq(v) && #[trigger] stream_opens(bytes@, i as int, enc_bre_seq(v), rest)
                ==> r is Some,
{
    proof {
        assert forall|v: Seq<crate::broadcasting::BroadcastResponseEntry>, rest: Seq<u8>|
            encodable_bre_seq(v) && #[trigger] stream_opens(
                bytes@,
                i as int,
                enc_bre_seq(v),
                rest,
            ) implies stream_opens(
            bytes@,
            i as int,
            enc_u64(v.len() as u64),
            concat_bytes(v.map_values(enc_broadcast_response_entry_fn())) + rest,
        ) by {
            assert(enc_bre_seq(v) + rest =~= enc_u64(v.len() as u64) + (concat_bytes(
                v.map_values(enc_broadcast_response_entry_fn()),
            ) + rest));
        }
    }
    let (n, k) = match read_u64(bytes, i) {
        Some(p) => p,
        None => {
            return None;
        },
    };
    proof {
        assert forall|v: Seq<crate::broadcasting::BroadcastResponseEntry>, rest: Seq<u8>|
            encodable_bre_seq(v) && #[trigger] stream_opens(
                bytes@,
                i as int,
                enc_bre_seq(v),
                rest,
            ) implies v.len() == n && stream_opens(
            bytes@,
            k as int,
            concat_bytes(v.skip(0).map_values(enc_broadcast_response_entry_fn())),
            rest,
        ) by {
            lemma_auto_spec_u64_to_from_le_bytes();
            lemma_stream_feed(
                bytes@,
                i as int,
                k as int,
                enc_u64(v.len() as u64),
                concat_bytes(v.map_values(enc_broadcast_response_entry_fn())) + rest,
            );
            lemma_concat_parts(
                enc_u64(n),
                bytes@.skip(k as int),
                enc_u64(v.len() as u64),
                concat_bytes(v.map_values(enc_broadcast_response_entry_fn())) + rest,
            );
            assert(spec_u64_from_le_bytes(enc_u64(n)) == spec_u64_from_le_bytes(
                enc_u64(v.len() as u64),
            ));
            assert(v.skip(0) =~= v);
        }
    }
    let mut out: Vec<crate::broadcasting::BroadcastResponseEntry> = Vec::new();
    let mut cur = k;
    let mut c: u64 = 0;
    while c < n
        invariant
            i + 8 == k,
            k <= cur <= bytes@.len(),
            c <= n,
            out@.len() == c,
            bytes@.subrange(k as int, cur as int) == concat_bytes(
                out@.map_values(enc_broadcast_response_entry_fn()),
            ),
            forall|t: int| 0 <= t < out@.len() ==> encodable_broadcast_response_entry(#[trigger] out@[t]),
            forall|v: Seq<crate::broadcasting::BroadcastResponseEntry>, rest: Seq<u8>|
                encodable_bre_seq(v) && #[trigger] stream_opens(
                    bytes@,
                    i as int,
                    enc_bre_seq(v),
                    rest,
                ) ==> v.len() == n && stream_opens(
                    bytes@,
                    cur as int,
                    concat_bytes(v.skip(c as int).map_values(enc_broadcast_response_entry_fn())),
                    rest,
                ),
        decreases n - c,
    {
        proof {
            assert forall|v: Seq<crate::broadcasting::BroadcastResponseEntry>, rest: Seq<u8>|
                encodable_bre_seq(v) && #[trigger] stream_opens(
                    bytes@,
                    i as int,
                    enc_bre_seq(v),
                    rest,
                ) implies stream_opens(
                bytes@,
                cur as int,
                enc_broadcast_response_entry(v[c as int]),
                concat_bytes(v.skip(c + 1).map_values(enc_broadcast_response_entry_fn())) + rest,
            ) && encodable_broadcast_response_entry(v[c as int]) by {
                let s = v.skip(c as int).map_values(enc_broadcast_response_entry_fn());
                assert(s[0] == enc_broadcast_response_entry(v[c as int]));
                assert(s.drop_first() =~= v.skip(c + 1).map_values(enc_broadcast_response_entry_fn()));
                assert(concat_bytes(s) == s[0] + concat_bytes(s.drop_first()));
                assert(concat_bytes(s) + rest =~= enc_broadcast_response_entry(v[c as int]) + (concat_bytes(
                    v.skip(c + 1).map_values(enc_broadcast_response_entry_fn()),
                ) + rest));
            }
        }
        let (row, j) = match read_broadcast_response_entry(bytes, cur) {
            Some(p) => p,
            None => {
                return None;
            },
        };
        proof {
            assert forall|v: Seq<crate::broadcasting::BroadcastResponseEntry>, rest: Seq<u8>|
                encodable_bre_seq(v) && #[trigger] stream_opens(
                    bytes@,
                    i as int,
                    enc_bre_seq(v),
                    rest,
                ) implies stream_opens(
                bytes@,
                j as int,
                concat_bytes(v.skip(c + 1).map_values(enc_broadcast_response_entry_fn())),
                rest,
            ) by {
                lemma_stream_feed(
                    bytes@,
                    cur as int,
                    j as int,
                    enc_broadcast_response_entry(v[c as int]),
                    concat_bytes(v.skip(c + 1).map_values(enc_broadcast_response_entry_fn())) + rest,
                );
                lemma_enc_broadcast_response_entry_prefix(
                    row,
                    v[c as int],
                    bytes@.skip(j as int),
                    concat_bytes(v.skip(c + 1).map_values(enc_broadcast_response_entry_fn())) + rest,
                );
            }
            assert(out@.push(row).map_values(enc_broadcast_response_entry_fn()) =~~= out@.map_values(
                enc_broadcast_response_entry_fn(),
            ).push(enc_broadcast_response_entry(row)));
            lemma_concat_bytes_snoc(out@.map_values(enc_broadcast_response_entry_fn()), enc_broadcast_response_entry(row));
            assert(bytes@.subrange(k as int, j as int) =~= bytes@.subrange(k as int, cur as int)
                + bytes@.subrange(cur as int, j as int));
        }
        out.push(row);
        cur = j;
        c = c + 1;
    }
    proof {
        lemma_auto_spec_u64_to_from_le_bytes();
        assert(bytes@.subrange(i as int, cur as int) =~= bytes@.subrange(i as int, k as int)
            + bytes@.subrange(k as int, cur as int));
        assert(bytes@.subrange(i as int, cur as int) =~= enc_bre_seq(out@));
    }
    Some((out, cur))
}

/// Two list encodings that open the same stream carry equal lists.
pub proof fn lemma_enc_bre_seq_prefix(
    a: Seq<crate::broadcasting::BroadcastResponseEntry>,
    b: Seq<crate::broadcasting::BroadcastResponseEntry>,
    ra: Seq<u8>,
    rb: Seq<u8>,
)
    requires
        enc_bre_seq(a) + ra == enc_bre_seq(b) + rb,
        encodable_bre_seq(a),
        encodable_bre_seq(b),
    ensures
        enc_bre_seq(a) == enc_bre_seq(b),
        ra == rb,
        crate::broadcasting::broadcast_response_seq_eqv(a, b),
{
    lemma_auto_spec_u64_to_from_le_bytes();
    let xs = a.map_values(enc_broadcast_response_entry_fn());
    let ys = b.map_values(enc_broadcast_response_entry_fn());
    assert(enc_bre_seq(a) + ra =~= enc_u64(a.len() as u64) + (concat_bytes(xs) + ra));
    assert(enc_bre_seq(b) + rb =~= enc_u64(b.len() as u64) + (concat_bytes(ys) + rb));
    lemma_concat_parts(
        enc_u64(a.len() as u64),
        concat_bytes(xs) + ra,
        enc_u64(b.len() as u64),
        concat_bytes(ys) + rb,
    );
    assert(spec_u64_from_le_bytes(enc_u64(a.len() as u64)) == spec_u64_from_le_bytes(
        enc_u64(b.len() as u64),
    ));
    assert(a.len() == b.len());
    assert forall|t: int, sa: Seq<u8>, sb: Seq<u8>|
        #![trigger xs[t] + sa, ys[t] + sb]
        0 <= t < xs.len() && xs[t] + sa == ys[t] + sb implies xs[t] == ys[t] by {
        lemma_enc_broadcast_response_entry_prefix(a[t], b[t], sa, sb);
    }
    lemma_concat_bytes_align(xs, ys, ra, rb);
    assert forall|t: int| 0 <= t < a.len() implies #[trigger] a[t].eqv(b[t]) by {
        assert(xs[t] == ys[t]);
        assert(enc_broadcast_response_entry(a[t]) + Seq::<u8>::empty() =~= enc_broadcast_response_entry(a[t]));
        assert(enc_broadcast_response_entry(b[t]) + Seq::<u8>::empty() =~= enc_broadcast_response_entry(b[t]));
        lemma_enc_broadcast_response_entry_prefix(a[t], b[t], Seq::<u8>::empty(), Seq::<u8>::empty());
    }
    assert(enc_bre_seq(a) =~= enc_bre_seq(b));
}


/// The wire form of this value.
pub open spec fn enc_broadcast_request(r: crate::broadcasting::BroadcastRequest) -> Seq<u8> {
    enc_opt_str(r.origin_id) + enc_str(r.request_id) + enc_bm(r.broadcast_message)
}

/// A value whose strings and lists fit the wire.
pub open spec fn encodable_broadcast_request(r: crate::broadcasting::BroadcastRequest) -> bool {
    encodable_opt_str(r.origin_id) && encodable_str(r.request_id)
}

/// Append the wire form.
pub fn write_broadcast_request(r: &crate::broadcasting::BroadcastRequest, buf: &mut Vec<u8>)
    ensures
        final(buf)@ == old(buf)@ + enc_broadcast_request(*r),
        encodable_broadcast_request(*r),
{
    write_opt_str(&r.origin_id, buf);
    write_str(&r.request_id, buf);
    write_bm(r.broadcast_message, buf);
    proof {
        assert(final(buf)@ =~= old(buf)@ + enc_broadcast_request(*r));
    }
}

/// Read the value back.
pub fn read_broadcast_request(bytes: &Vec<u8>, i: usize) -> (r: Option<(crate::broadcasting::BroadcastRequest, usize)>)
    ensures
        r matches Some((v, j)) ==> i <= j <= bytes@.len() && bytes@.subrange(i as int, j as int)
            == enc_broadcast_request(v) && encodable_broadcast_request(v),
        forall|v: crate::broadcasting::BroadcastRequest, rest: Seq<u8>|
            encodable_broadcast_request(v) && #[trigger] stream_opens(bytes@, i as int, enc_broadcast_request(v), rest)
                ==> r is Some,
{
    proof {
        assert forall|v: crate::broadcasting::BroadcastRequest, rest: Seq<u8>|
            encodable_broadcast_request(v) && #[trigger] stream_opens(bytes@, i as int, enc_broadcast_request(v), rest)
            implies stream_opens(bytes@, i as int, enc_opt_str(v.origin_id), enc_str(v.request_id) + (enc_bm(v.broadcast_message) + (rest))) by {
            assert(enc_broadcast_request(v) + rest =~= enc_opt_str(v.origin_id) + (enc_str(v.request_id) + (enc_bm(v.broadcast_message) + (rest))));
        }
    }
    let (origin_id, k0) = match read_opt_str(bytes, i) {
        Some(p) => p,
        None => { return None; },
    };
    proof {
        assert forall|v: crate::broadcasting::BroadcastRequest, rest: Seq<u8>|
            encodable_broadcast_request(v) && #[trigger] stream_opens(bytes@, i as int, enc_broadcast_request(v), rest)
            implies stream_opens(bytes@, k0 as int, enc_str(v.request_id), enc_bm(v.broadcast_message) + (rest)) by {
            lemma_stream_feed(bytes@, i as int, k0 as int, enc_opt_str(v.origin_id), enc_str(v.request_id) + (enc_bm(v.broadcast_message) + (rest)));
            lemma_enc_opt_str_prefix(origin_id, v.origin_id, bytes@.skip(k0 as int), enc_str(v.request_id) + (enc_bm(v.broadcast_message) + (rest)));
        }
    }
    let (request_id, k1) = match read_str(bytes, k0) {
        Some(p) => p,
        None => { return None; },
    };
    proof {
        assert forall|v: crate::broadcasting::BroadcastRequest, rest: Seq<u8>|
            encodable_broadcast_request(v) && #[trigger] stream_opens(bytes@, i as int, enc_broadcast_request(v), rest)
            implies stream_opens(bytes@, k1 as int, enc_bm(v.broadcast_message), rest) by {
            lemma_stream_feed(bytes@, k0 as int, k1 as int, enc_str(v.request_id), enc_bm(v.broadcast_message) + (rest));
            lemma_enc_str_prefix(request_id, v.request_id, bytes@.skip(k1 as int), enc_bm(v.broadcast_message) + (rest));
        }
    }
    let (broadcast_message, k2) = match read_bm(bytes, k1) {
        Some(p) => p,
        None => { return None; },
    };
    let v = crate::broadcasting::BroadcastRequest { origin_id, request_id, broadcast_message };
    proof {
        assert(bytes@.subrange(i as int, k2 as int) =~= enc_broadcast_request(v));
    }
    Some((v, k2))
}

/// Two encodings that open the same stream carry equal values.
pub proof fn lemma_enc_broadcast_request_prefix(a: crate::broadcasting::BroadcastRequest, b: crate::broadcasting::BroadcastRequest, ra: Seq<u8>, rb: Seq<u8>)
    requires
        enc_broadcast_request(a) + ra == enc_broadcast_request(b) + rb,
        encodable_broadcast_request(a),
        encodable_broadcast_request(b),
    ensures
        enc_broadcast_request(a) == enc_broadcast_request(b),
        ra == rb,
        a.eqv(b),
{
    assert(enc_broadcast_request(a) + ra =~= enc_opt_str(a.origin_id) + (enc_str(a.request_id) + (enc_bm(a.broadcast_message) + (ra))));
    assert(enc_broadcast_request(b) + rb =~= enc_opt_str(b.origin_id) + (enc_str(b.request_id) + (enc_bm(b.broadcast_message) + (rb))));
    lemma_enc_opt_str_prefix(a.origin_id, b.origin_id, enc_str(a.request_id) + (enc_bm(a.broadcast_message) + (ra)), enc_str(b.request_id) + (enc_bm(b.broadcast_message) + (rb)));
    lemma_enc_str_prefix(a.request_id, b.request_id, enc_bm(a.broadcast_message) + (ra), enc_bm(b.broadcast_message) + (rb));
    lemma_enc_bm_prefix(a.broadcast_message, b.broadcast_message, ra, rb);
    assert(enc_broadcast_request(a) =~= enc_broadcast_request(b));
}


/// The wire form of a trace record.
pub open spec fn enc_trace(t: crate::tracing::Trace) -> Seq<u8> {
    enc_trace_event_seq(t.events@) + enc_opt_str(t.request_id) + enc_str(t.destination_id)
        + enc_opt_u64(t.start_time) + enc_opt_u64(t.stop_time)
}

/// A trace record that fits the wire.
pub open spec fn encodable_trace(t: crate::tracing::Trace) -> bool {
    encodable_trace_event_seq(t.events@) && encodable_opt_str(t.request_id) && encodable_str(
        t.destination_id,
    )
}

/// Append the wire form of a trace record.
pub fn write_trace(t: &crate::tracing::Trace, buf: &mut Vec<u8>)
    ensures
        final(buf)@ == old(buf)@ + enc_trace(*t),
        encodable_trace(*t),
{
    write_trace_event_seq(&t.events, buf);
    write_opt_str(&t.request_id, buf);
    write_str(&t.destination_id, buf);
    write_opt_u64(&t.start_time, buf);
    write_opt_u64(&t.stop_time, buf);
    proof {
        assert(final(buf)@ =~= old(buf)@ + enc_trace(*t));
    }
}

/// Read a trace record back.
#[verifier::spinoff_prover]
#[verifier::rlimit(100)]
pub fn read_trace(bytes: &Vec<u8>, i: usize) -> (r: Option<(crate::tracing::Trace, usize)>)
    ensures
        r matches Some((v, j)) ==> i <= j <= bytes@.len() && bytes@.subrange(i as int, j as int)
            == enc_trace(v) && encodable_trace(v),
        forall|v: crate::tracing::Trace, rest: Seq<u8>|
            encodable_trace(v) && #[trigger] stream_opens(bytes@, i as int, enc_trace(v), rest)
                ==> r is Some,
{
    proof {
        assert forall|v: crate::tracing::Trace, rest: Seq<u8>|
            encodable_trace(v) && #[trigger] stream_opens(bytes@, i as int, enc_trace(v), rest)
            implies stream_opens(bytes@, i as int, enc_trace_event_seq(v.events@), enc_opt_str(v.request_id) + (enc_str(v.destination_id) + (enc_opt_u64(v.start_time) + (enc_opt_u64(v.stop_time) + (rest))))) by {
            assert(enc_trace(v) + rest =~= enc_trace_event_seq(v.events@) + (enc_opt_str(v.request_id) + (enc_str(v.destination_id) + (enc_opt_u64(v.start_time) + (enc_opt_u64(v.stop_time) + (rest))))));
        }
    }
    let (events, k0) = match read_trace_event_seq(bytes, i) {
        Some(p) => p,
        None => { return None; },
    };
    proof {
        assert forall|v: crate::tracing::Trace, rest: Seq<u8>|
            encodable_trace(v) && #[trigger] stream_opens(bytes@, i as int, enc_trace(v), rest)
            implies stream_opens(bytes@, k0 as int, enc_opt_str(v.request_id), enc_str(v.destination_id) + (enc_opt_u64(v.start_time) + (enc_opt_u64(v.stop_time) + (rest)))) by {
            lemma_stream_feed(bytes@, i as int, k0 as int, enc_trace_event_seq(v.events@), enc_opt_str(v.request_id) + (enc_str(v.destination_id) + (enc_opt_u64(v.start_time) + (enc_opt_u64(v.stop_time) + (rest)))));
            lemma_enc_trace_event_seq_prefix(events@, v.events@, bytes@.skip(k0 as int), enc_opt_str(v.request_id) + (enc_str(v.destination_id) + (enc_opt_u64(v.start_time) + (enc_opt_u64(v.stop_time) + (rest)))));
        }
    }
    let (request_id, k1) = match read_opt_str(bytes, k0) {
        Some(p) => p,
        None => { return None; },
    };
    proof {
        assert forall|v: crate::tracing::Trace, rest: Seq<u8>|
            encodable_trace(v) && #[trigger] stream_opens(bytes@, i as int, enc_trace(v), rest)
            implies stream_opens(bytes@, k1 as int, enc_str(v.destination_id), enc_opt_u64(v.start_time) + (enc_opt_u64(v.stop_time) + (rest))) by {
            lemma_stream_feed(bytes@, k0 as int, k1 as int, enc_opt_str(v.request_id), enc_str(v.destination_id) + (enc_opt_u64(v.start_time) + (enc_opt_u64(v.stop_time) + (rest))));
            lemma_enc_opt_str_prefix(request_id, v.request_id, bytes@.skip(k1 as int), enc_str(v.destination_id) + (enc_opt_u64(v.start_time) + (enc_opt_u64(v.stop_time) + (rest))));
        }
    }
    let (destination_id, k2) = match read_str(bytes, k1) {
        Some(p) => p,
        None => { return None; },
    };
    proof {
        assert forall|v: crate::tracing::Trace, rest: Seq<u8>|
            encodable_trace(v) && #[trigger] stream_opens(bytes@, i as int, enc_trace(v), rest)
            implies stream_opens(bytes@, k2 as int, enc_opt_u64(v.start_time), enc_opt_u64(v.stop_time) + (rest)) by {
            lemma_stream_feed(bytes@, k1 as int, k2 as int, enc_str(v.destination_id), enc_opt_u64(v.start_time) + (enc_opt_u64(v.stop_time) + (rest)));
            lemma_enc_str_prefix(destination_id, v.destination_id, bytes@.skip(k2 as int), enc_opt_u64(v.start_time) + (enc_opt_u64(v.stop_time) + (rest)));
        }
    }
    let (start_time, k3) = match read_opt_u64(bytes, k2) {
        Some(p) => p,
        None => { return None; },
    };
    proof {
        assert forall|v: crate::tracing::Trace, rest: Seq<u8>|
            encodable_trace(v) && #[trigger] stream_opens(bytes@, i as int, enc_trace(v), rest)
            implies stream_opens(bytes@, k3 as int, enc_opt_u64(v.stop_time), rest) by {
            lemma_stream_feed(bytes@, k2 as int, k3 as int, enc_opt_u64(v.start_time), enc_opt_u64(v.stop_time) + (rest));
            lemma_enc_opt_u64_prefix(start_time, v.start_time, bytes@.skip(k3 as int), enc_opt_u64(v.stop_time) + (rest));
        }
    }
    let (stop_time, k4) = match read_opt_u64(bytes, k3) {
        Some(p) => p,
        None => { return None; },
    };
    let v = crate::tracing::Trace { events, request_id, destination_id, start_time, stop_time };
    proof {
        assert(bytes@.subrange(i as int, k4 as int) =~= enc_trace(v));
    }
    Some((v, k4))
}


/// Strip one tagged trace payload from two equal streams.
pub proof fn lemma_tagged_trace_prefix(
    tag: u8,
    x: crate::tracing::Trace,
    y: crate::tracing::Trace,
    ra: Seq<u8>,
    rb: Seq<u8>,
)
    requires
        (seq![tag] + enc_trace(x)) + ra == (seq![tag] + enc_trace(y)) + rb,
        encodable_trace(x),
        encodable_trace(y),
    ensures
        enc_trace(x) == enc_trace(y),
        ra == rb,
        x.eqv(y),
{
    assert((seq![tag] + enc_trace(x)) + ra =~= seq![tag] + (enc_trace(x) + ra));
    assert((seq![tag] + enc_trace(y)) + rb =~= seq![tag] + (enc_trace(y) + rb));
    lemma_concat_parts(seq![tag], enc_trace(x) + ra, seq![tag], enc_trace(y) + rb);
    lemma_enc_trace_prefix(x, y, ra, rb);
}

/// Strip one tagged broadcast payload from two equal streams.
pub proof fn lemma_tagged_broadcast_prefix(
    tag: u8,
    x: crate::broadcasting::Broadcast,
    y: crate::broadcasting::Broadcast,
    ra: Seq<u8>,
    rb: Seq<u8>,
)
    requires
        (seq![tag] + enc_broadcast(x)) + ra == (seq![tag] + enc_broadcast(y)) + rb,
        encodable_broadcast(x),
        encodable_broadcast(y),
    ensures
        enc_broadcast(x) == enc_broadcast(y),
        ra == rb,
        x.eqv(y),
{
    assert((seq![tag] + enc_broadcast(x)) + ra =~= seq![tag] + (enc_broadcast(x) + ra));
    assert((seq![tag] + enc_broadcast(y)) + rb =~= seq![tag] + (enc_broadcast(y) + rb));
    lemma_concat_parts(seq![tag], enc_broadcast(x) + ra, seq![tag], enc_broadcast(y) + rb);
    lemma_enc_broadcast_prefix(x, y, ra, rb);
}

/// Strip a trace record's trailing fields from two equal streams.
pub proof fn lemma_trace_tail_prefix(
    arid: Option<String>,
    brid: Option<String>,
    adest: String,
    bdest: String,
    ast: Option<u64>,
    bst: Option<u64>,
    asp: Option<u64>,
    bsp: Option<u64>,
    ra: Seq<u8>,
    rb: Seq<u8>,
)
    requires
        enc_opt_str(arid) + (enc_str(adest) + (enc_opt_u64(ast) + (enc_opt_u64(asp) + ra)))
            == enc_opt_str(brid) + (enc_str(bdest) + (enc_opt_u64(bst) + (enc_opt_u64(bsp) + rb))),
        encodable_opt_str(arid),
        encodable_opt_str(brid),
        encodable_str(adest),
        encodable_str(bdest),
    ensures
        enc_opt_str(arid) == enc_opt_str(brid),
        enc_str(adest) == enc_str(bdest),
        enc_opt_u64(ast) == enc_opt_u64(bst),
        enc_opt_u64(asp) == enc_opt_u64(bsp),
        ra == rb,
        crate::seq_util::opt_str_eqv(arid, brid),
        adest@ == bdest@,
        ast == bst,
        asp == bsp,
{
    lemma_enc_opt_str_prefix(
        arid,
        brid,
        enc_str(adest) + (enc_opt_u64(ast) + (enc_opt_u64(asp) + ra)),
        enc_str(bdest) + (enc_opt_u64(bst) + (enc_opt_u64(bsp) + rb)),
    );
    lemma_enc_str_prefix(
        adest,
        bdest,
        enc_opt_u64(ast) + (enc_opt_u64(asp) + ra),
        enc_opt_u64(bst) + (enc_opt_u64(bsp) + rb),
    );
    lemma_enc_opt_u64_prefix(ast, bst, enc_opt_u64(asp) + ra, enc_opt_u64(bsp) + rb);
    lemma_enc_opt_u64_prefix(asp, bsp, ra, rb);
}

/// Two trace encodings that open the same stream carry equal records.
#[verifier::spinoff_prover]
#[verifier::rlimit(100)]
pub proof fn lemma_enc_trace_prefix(
    a: crate::tracing::Trace,
    b: crate::tracing::Trace,
    ra: Seq<u8>,
    rb: Seq<u8>,
)
    requires
        enc_trace(a) + ra == enc_trace(b) + rb,
        encodable_trace(a),
        encodable_trace(b),
    ensures
        enc_trace(a) == enc_trace(b),
        ra == rb,
        a.eqv(b),
{
    assert(enc_trace(a) + ra =~= enc_trace_event_seq(a.events@) + (enc_opt_str(a.request_id) + (
    enc_str(a.destination_id) + (enc_opt_u64(a.start_time) + (enc_opt_u64(a.stop_time) + ra)))));
    assert(enc_trace(b) + rb =~= enc_trace_event_seq(b.events@) + (enc_opt_str(b.request_id) + (
    enc_str(b.destination_id) + (enc_opt_u64(b.start_time) + (enc_opt_u64(b.stop_time) + rb)))));
    lemma_enc_trace_event_seq_prefix(
        a.events@,
        b.events@,
        enc_opt_str(a.request_id) + (enc_str(a.destination_id) + (enc_opt_u64(a.start_time) + (
        enc_opt_u64(a.stop_time) + ra))),
        enc_opt_str(b.request_id) + (enc_str(b.destination_id) + (enc_opt_u64(b.start_time) + (
        enc_opt_u64(b.stop_time) + rb))),
    );
    lemma_trace_tail_prefix(
        a.request_id,
        b.request_id,
        a.destination_id,
        b.destination_id,
        a.start_time,
        b.start_time,
        a.stop_time,
        b.stop_time,
        ra,
        rb,
    );
    assert(enc_trace(a) =~= enc_trace(b));
}

/// The wire form of an optional route list.
pub open spec fn enc_opt_route_seq(v: Option<Vec<crate::routing::Route>>) -> Seq<u8> {
    match v {
        None => seq![0u8],
        Some(x) => seq![1u8] + enc_route_seq(x@),
    }
}

/// An optional route list that fits the wire.
pub open spec fn encodable_opt_route_seq(v: Option<Vec<crate::routing::Route>>) -> bool {
    match v {
        None => true,
        Some(x) => encodable_route_seq(x@),
    }
}

/// Append the wire form of an optional route list.
pub fn write_opt_route_seq(v: &Option<Vec<crate::routing::Route>>, buf: &mut Vec<u8>)
    ensures
        final(buf)@ == old(buf)@ + enc_opt_route_seq(*v),
        encodable_opt_route_seq(*v),
{
    match v {
        None => {
            write_bool(false, buf);
        },
        Some(x) => {
            write_bool(true, buf);
            write_route_seq(x, buf);
            proof {
                assert(final(buf)@ =~= old(buf)@ + enc_opt_route_seq(*v));
            }
        },
    }
}

/// Read an optional route list back.
pub fn read_opt_route_seq(bytes: &Vec<u8>, i: usize) -> (r: Option<(Option<Vec<crate::routing::Route>>, usize)>)
    ensures
        r matches Some((v, j)) ==> i <= j <= bytes@.len() && bytes@.subrange(i as int, j as int)
            == enc_opt_route_seq(v) && encodable_opt_route_seq(v),
        forall|v: Option<Vec<crate::routing::Route>>, rest: Seq<u8>|
            encodable_opt_route_seq(v) && #[trigger] stream_opens(bytes@, i as int, enc_opt_route_seq(v), rest)
                ==> r is Some,
{
    proof {
        assert forall|v: Option<Vec<crate::routing::Route>>, rest: Seq<u8>|
            encodable_opt_route_seq(v) && #[trigger] stream_opens(bytes@, i as int, enc_opt_route_seq(v), rest)
            implies match v {
            None => stream_opens(bytes@, i as int, enc_bool(false), rest),
            Some(x) => stream_opens(bytes@, i as int, enc_bool(true), enc_route_seq(x@) + rest),
        } by {
            match v {
                None => {
                    assert(enc_opt_route_seq(v) + rest =~= enc_bool(false) + rest);
                },
                Some(x) => {
                    assert(enc_opt_route_seq(v) + rest =~= enc_bool(true) + (enc_route_seq(x@) + rest));
                },
            }
        }
    }
    let (flag, k) = match read_bool(bytes, i) {
        Some(p) => p,
        None => { return None; },
    };
    if !flag {
        return Some((None, k));
    }
    proof {
        assert forall|v: Option<Vec<crate::routing::Route>>, rest: Seq<u8>|
            encodable_opt_route_seq(v) && #[trigger] stream_opens(bytes@, i as int, enc_opt_route_seq(v), rest)
            implies (v matches Some(x) && stream_opens(bytes@, k as int, enc_route_seq(x@), rest)) by {
            match v {
                None => {
                    lemma_stream_feed(bytes@, i as int, k as int, enc_bool(false), rest);
                    lemma_enc_bool_prefix(true, false, bytes@.skip(k as int), rest);
                },
                Some(x) => {
                    lemma_stream_feed(bytes@, i as int, k as int, enc_bool(true), enc_route_seq(x@) + rest);
                    lemma_enc_bool_prefix(true, true, bytes@.skip(k as int), enc_route_seq(x@) + rest);
                },
            }
        }
    }
    match read_route_seq(bytes, k) {
        Some((x, j)) => {
            proof {
                assert(enc_opt_route_seq(Some(x)) =~= bytes@.subrange(i as int, j as int));
            }
            Some((Some(x), j))
        },
        None => None,
    }
}

/// Two optional-route-list encodings that open the same stream agree.
pub proof fn lemma_enc_opt_route_seq_prefix(
    a: Option<Vec<crate::routing::Route>>,
    b: Option<Vec<crate::routing::Route>>,
    ra: Seq<u8>,
    rb: Seq<u8>,
)
    requires
        enc_opt_route_seq(a) + ra == enc_opt_route_seq(b) + rb,
        encodable_opt_route_seq(a),
        encodable_opt_route_seq(b),
    ensures
        enc_opt_route_seq(a) == enc_opt_route_seq(b),
        ra == rb,
        match (a, b) {
            (None, None) => true,
            (Some(x), Some(y)) => crate::routing::route_seq_eqv(x@, y@),
            _ => false,
        },
{
    match (a, b) {
        (None, None) => {
            lemma_concat_parts(seq![0u8], ra, seq![0u8], rb);
        },
        (Some(x), Some(y)) => {
            assert((seq![1u8] + enc_route_seq(x@)) + ra =~= seq![1u8] + (enc_route_seq(x@) + ra));
            assert((seq![1u8] + enc_route_seq(y@)) + rb =~= seq![1u8] + (enc_route_seq(y@) + rb));
            lemma_concat_parts(seq![1u8], enc_route_seq(x@) + ra, seq![1u8], enc_route_seq(y@) + rb);
            lemma_enc_route_seq_prefix(x@, y@, ra, rb);
        },
        (None, Some(y)) => {
            assert((enc_opt_route_seq(a) + ra)[0] == 0u8);
            assert((seq![1u8] + enc_route_seq(y@)) + rb =~= seq![1u8] + (enc_route_seq(y@) + rb));
            assert((enc_opt_route_seq(b) + rb)[0] == 1u8);
        },
        (Some(x), None) => {
            assert((seq![1u8] + enc_route_seq(x@)) + ra =~= seq![1u8] + (enc_route_seq(x@) + ra));
            assert((enc_opt_route_seq(a) + ra)[0] == 1u8);
            assert((enc_opt_route_seq(b) + rb)[0] == 0u8);
        },
    }
}
/// The wire form of an optional string list.
pub open spec fn enc_opt_str_seq(v: Option<Vec<String>>) -> Seq<u8> {
    match v {
        None => seq![0u8],
        Some(x) => seq![1u8] + enc_str_seq(x@),
    }
}

/// An optional string list that fits the wire.
pub open spec fn encodable_opt_str_seq(v: Option<Vec<String>>) -> bool {
    match v {
        None => true,
        Some(x) => encodable_str_seq(x@),
    }
}

/// Append the wire form of an optional string list.
pub fn write_opt_str_seq(v: &Option<Vec<String>>, buf: &mut Vec<u8>)
    ensures
        final(buf)@ == old(buf)@ + enc_opt_str_seq(*v),
        encodable_opt_str_seq(*v),
{
    match v {
        None => {
            write_bool(false, buf);
        },
        Some(x) => {
            write_bool(true, buf);
            write_str_seq(x, buf);
            proof {
                assert(final(buf)@ =~= old(buf)@ + enc_opt_str_seq(*v));
            }
        },
    }
}

/// Read an optional string list back.
pub fn read_opt_str_seq(bytes: &Vec<u8>, i: usize) -> (r: Option<(Option<Vec<String>>, usize)>)
    ensures
        r matches Some((v, j)) ==> i <= j <= bytes@.len() && bytes@.subrange(i as int, j as int)
            == enc_opt_str_seq(v) && encodable_opt_str_seq(v),
        forall|v: Option<Vec<String>>, rest: Seq<u8>|
            encodable_opt_str_seq(v) && #[trigger] stream_opens(bytes@, i as int, enc_opt_str_seq(v), rest)
                ==> r is Some,
{
    proof {
        assert forall|v: Option<Vec<String>>, rest: Seq<u8>|
            encodable_opt_str_seq(v) && #[trigger] stream_opens(bytes@, i as int, enc_opt_str_seq(v), rest)
            implies match v {
            None => stream_opens(bytes@, i as int, enc_bool(false), rest),
            Some(x) => stream_opens(bytes@, i as int, enc_bool(true), enc_str_seq(x@) + rest),
        } by {
            match v {
                None => {
                    assert(enc_opt_str_seq(v) + rest =~= enc_bool(false) + rest);
                },
                Some(x) => {
                    assert(enc_opt_str_seq(v) + rest =~= enc_bool(true) + (enc_str_seq(x@) + rest));
                },
            }
        }
    }
    let (flag, k) = match read_bool(bytes, i) {
        Some(p) => p,
        None => { return None; },
    };
    if !flag {
        return Some((None, k));
    }
    proof {
        assert forall|v: Option<Vec<String>>, rest: Seq<u8>|
            encodable_opt_str_seq(v) && #[trigger] stream_opens(bytes@, i as int, enc_opt_str_seq(v), rest)
            implies (v matches Some(x) && stream_opens(bytes@, k as int, enc_str_seq(x@), rest)) by {
            match v {
                None => {
                    lemma_stream_feed(bytes@, i as int, k as int, enc_bool(false), rest);
                    lemma_enc_bool_prefix(true, false, bytes@.skip(k as int), rest);
                },
                Some(x) => {
                    lemma_stream_feed(bytes@, i as int, k as int, enc_bool(true), enc_str_seq(x@) + rest);
                    lemma_enc_bool_prefix(true, true, bytes@.skip(k as int), enc_str_seq(x@) + rest);
                },
            }
        }
    }
    match read_str_seq(bytes, k) {
        Some((x, j)) => {
            proof {
                assert(enc_opt_str_seq(Some(x)) =~= bytes@.subrange(i as int, j as int));
            }
            Some((Some(x), j))
        },
        None => None,
    }
}

/// Two optional-route-list encodings that open the same stream agree.
pub proof fn lemma_enc_opt_str_seq_prefix(
    a: Option<Vec<String>>,
    b: Option<Vec<String>>,
    ra: Seq<u8>,
    rb: Seq<u8>,
)
    requires
        enc_opt_str_seq(a) + ra == enc_opt_str_seq(b) + rb,
        encodable_opt_str_seq(a),
        encodable_opt_str_seq(b),
    ensures
        enc_opt_str_seq(a) == enc_opt_str_seq(b),
        ra == rb,
        match (a, b) {
            (None, None) => true,
            (Some(x), Some(y)) => crate::seq_util::str_seq_eqv(x@, y@),
            _ => false,
        },
{
    match (a, b) {
        (None, None) => {
            lemma_concat_parts(seq![0u8], ra, seq![0u8], rb);
        },
        (Some(x), Some(y)) => {
            assert((seq![1u8] + enc_str_seq(x@)) + ra =~= seq![1u8] + (enc_str_seq(x@) + ra));
            assert((seq![1u8] + enc_str_seq(y@)) + rb =~= seq![1u8] + (enc_str_seq(y@) + rb));
            lemma_concat_parts(seq![1u8], enc_str_seq(x@) + ra, seq![1u8], enc_str_seq(y@) + rb);
            lemma_enc_str_seq_prefix(x@, y@, ra, rb);
        },
        (None, Some(y)) => {
            assert((enc_opt_str_seq(a) + ra)[0] == 0u8);
            assert((seq![1u8] + enc_str_seq(y@)) + rb =~= seq![1u8] + (enc_str_seq(y@) + rb));
            assert((enc_opt_str_seq(b) + rb)[0] == 1u8);
        },
        (Some(x), None) => {
            assert((seq![1u8] + enc_str_seq(x@)) + ra =~= seq![1u8] + (enc_str_seq(x@) + ra));
            assert((enc_opt_str_seq(a) + ra)[0] == 1u8);
            assert((enc_opt_str_seq(b) + rb)[0] == 0u8);
        },
    }
}
/// The wire form of an optional peer list.
pub open spec fn enc_opt_peer_seq(v: Option<Vec<crate::peering::Peer>>) -> Seq<u8> {
    match v {
        None => seq![0u8],
        Some(x) => seq![1u8] + enc_peer_seq(x@),
    }
}

/// An optional peer list that fits the wire.
pub open spec fn encodable_opt_peer_seq(v: Option<Vec<crate::peering::Peer>>) -> bool {
    match v {
        None => true,
        Some(x) => encodable_peer_seq(x@),
    }
}

/// Append the wire form of an optional peer list.
pub fn write_opt_peer_seq(v: &Option<Vec<crate::peering::Peer>>, buf: &mut Vec<u8>)
    ensures
        final(buf)@ == old(buf)@ + enc_opt_peer_seq(*v),
        encodable_opt_peer_seq(*v),
{
    match v {
        None => {
            write_bool(false, buf);
        },
        Some(x) => {
            write_bool(true, buf);
            write_peer_seq(x, buf);
            proof {
                assert(final(buf)@ =~= old(buf)@ + enc_opt_peer_seq(*v));
            }
        },
    }
}

/// Read an optional peer list back.
pub fn read_opt_peer_seq(bytes: &Vec<u8>, i: usize) -> (r: Option<(Option<Vec<crate::peering::Peer>>, usize)>)
    ensures
        r matches Some((v, j)) ==> i <= j <= bytes@.len() && bytes@.subrange(i as int, j as int)
            == enc_opt_peer_seq(v) && encodable_opt_peer_seq(v),
        forall|v: Option<Vec<crate::peering::Peer>>, rest: Seq<u8>|
            encodable_opt_peer_seq(v) && #[trigger] stream_opens(bytes@, i as int, enc_opt_peer_seq(v), rest)
                ==> r is Some,
{
    proof {
        assert forall|v: Option<Vec<crate::peering::Peer>>, rest: Seq<u8>|
            encodable_opt_peer_seq(v) && #[trigger] stream_opens(bytes@, i as int, enc_opt_peer_seq(v), rest)
            implies match v {
            None => stream_opens(bytes@, i as int, enc_bool(false), rest),
            Some(x) => stream_opens(bytes@, i as int, enc_bool(true), enc_peer_seq(x@) + rest),
        } by {
            match v {
                None => {
                    assert(enc_opt_peer_seq(v) + rest =~= enc_bool(false) + rest);
                },
                Some(x) => {
                    assert(enc_opt_peer_seq(v) + rest =~= enc_bool(true) + (enc_peer_seq(x@) + rest));
                },
            }
        }
    }
    let (flag, k) = match read_bool(bytes, i) {
        Some(p) => p,
        None => { return None; },
    };
    if !flag {
        return Some((None, k));
    }
    proof {
        assert forall|v: Option<Vec<crate::peering::Peer>>, rest: Seq<u8>|
            encodable_opt_peer_seq(v) && #[trigger] stream_opens(bytes@, i as int, enc_opt_peer_seq(v), rest)
            implies (v matches Some(x) && stream_opens(bytes@, k as int, enc_peer_seq(x@), rest)) by {
            match v {
                None => {
                    lemma_stream_feed(bytes@, i as int, k as int, enc_bool(false), rest);
                    lemma_enc_bool_prefix(true, false, bytes@.skip(k as int), rest);
                },
                Some(x) => {
                    lemma_stream_feed(bytes@, i as int, k as int, enc_bool(true), enc_peer_seq(x@) + rest);
                    lemma_enc_bool_prefix(true, true, bytes@.skip(k as int), enc_peer_seq(x@) + rest);
                },
            }
        }
    }
    match read_peer_seq(bytes, k) {
        Some((x, j)) => {
            proof {
                assert(enc_opt_peer_seq(Some(x)) =~= bytes@.subrange(i as int, j as int));
            }
            Some((Some(x), j))
        },
        None => None,
    }
}

/// Two optional-route-list encodings that open the same stream agree.
pub proof fn lemma_enc_opt_peer_seq_prefix(
    a: Option<Vec<crate::peering::Peer>>,
    b: Option<Vec<crate::peering::Peer>>,
    ra: Seq<u8>,
    rb: Seq<u8>,
)
    requires
        enc_opt_peer_seq(a) + ra == enc_opt_peer_seq(b) + rb,
        encodable_opt_peer_seq(a),
        encodable_opt_peer_seq(b),
    ensures
        enc_opt_peer_seq(a) == enc_opt_peer_seq(b),
        ra == rb,
        match (a, b) {
            (None, None) => true,
            (Some(x), Some(y)) => crate::peering::peer_seq_eqv(x@, y@),
            _ => false,
        },
{
    match (a, b) {
        (None, None) => {
            lemma_concat_parts(seq![0u8], ra, seq![0u8], rb);
        },
        (Some(x), Some(y)) => {
            assert((seq![1u8] + enc_peer_seq(x@)) + ra =~= seq![1u8] + (enc_peer_seq(x@) + ra));
            assert((seq![1u8] + enc_peer_seq(y@)) + rb =~= seq![1u8] + (enc_peer_seq(y@) + rb));
            lemma_concat_parts(seq![1u8], enc_peer_seq(x@) + ra, seq![1u8], enc_peer_seq(y@) + rb);
            lemma_enc_peer_seq_prefix(x@, y@, ra, rb);
        },
        (None, Some(y)) => {
            assert((enc_opt_peer_seq(a) + ra)[0] == 0u8);
            assert((seq![1u8] + enc_peer_seq(y@)) + rb =~= seq![1u8] + (enc_peer_seq(y@) + rb));
            assert((enc_opt_peer_seq(b) + rb)[0] == 1u8);
        },
        (Some(x), None) => {
            assert((seq![1u8] + enc_peer_seq(x@)) + ra =~= seq![1u8] + (enc_peer_seq(x@) + ra));
            assert((enc_opt_peer_seq(a) + ra)[0] == 1u8);
            assert((enc_opt_peer_seq(b) + rb)[0] == 0u8);
        },
    }
}

/// The wire form of a broadcast record.
pub open spec fn enc_broadcast(b: crate::broadcasting::Broadcast) -> Seq<u8> {
    enc_broadcast_request(b.request) + enc_bre_seq(b.responses@)
}

/// A broadcast record that fits the wire.
pub open spec fn encodable_broadcast(b: crate::broadcasting::Broadcast) -> bool {
    encodable_broadcast_request(b.request) && encodable_bre_seq(b.responses@)
}

/// Append the wire form of a broadcast record.
pub fn write_broadcast(b: &crate::broadcasting::Broadcast, buf: &mut Vec<u8>)
    ensures
        final(buf)@ == old(buf)@ + enc_broadcast(*b),
        encodable_broadcast(*b),
{
    write_broadcast_request(&b.request, buf);
    write_bre_seq(&b.responses, buf);
    proof {
        assert(final(buf)@ =~= old(buf)@ + enc_broadcast(*b));
    }
}

/// Read a broadcast record back.
pub fn read_broadcast(bytes: &Vec<u8>, i: usize) -> (r: Option<(crate::broadcasting::Broadcast, usize)>)
    ensures
        r matches Some((v, j)) ==> i <= j <= bytes@.len() && bytes@.subrange(i as int, j as int)
            == enc_broadcast(v) && encodable_broadcast(v),
        forall|v: crate::broadcasting::Broadcast, rest: Seq<u8>|
            encodable_broadcast(v) && #[trigger] stream_opens(bytes@, i as int, enc_broadcast(v), rest)
                ==> r is Some,
{
    proof {
        assert forall|v: crate::broadcasting::Broadcast, rest: Seq<u8>|
            encodable_broadcast(v) && #[trigger] stream_opens(bytes@, i as int, enc_broadcast(v), rest)
            implies stream_opens(bytes@, i as int, enc_broadcast_request(v.request), enc_bre_seq(v.responses@) + (rest)) by {
            assert(enc_broadcast(v) + rest =~= enc_broadcast_request(v.request) + (enc_bre_seq(v.responses@) + (rest)));
        }
    }
    let (request, k0) = match read_broadcast_request(bytes, i) {
        Some(p) => p,
        None => { return None; },
    };
    proof {
        assert forall|v: crate::broadcasting::Broadcast, rest: Seq<u8>|
            encodable_broadcast(v) && #[trigger] stream_opens(bytes@, i as int, enc_broadcast(v), rest)
            implies stream_opens(bytes@, k0 as int, enc_bre_seq(v.responses@), rest) by {
            lemma_stream_feed(bytes@, i as int, k0 as int, enc_broadcast_request(v.request), enc_bre_seq(v.responses@) + (rest));
            lemma_enc_broadcast_request_prefix(request, v.request, bytes@.skip(k0 as int), enc_bre_seq(v.responses@) + (rest));
        }
    }
    let (responses, k1) = match read_bre_seq(bytes, k0) {
        Some(p) => p,
        None => { return None; },
    };
    let v = crate::broadcasting::Broadcast { request, responses };
    proof {
        assert(bytes@.subrange(i as int, k1 as int) =~= enc_broadcast(v));
    }
    Some((v, k1))
}

/// Two broadcast encodings that open the same stream carry equal records.
pub proof fn lemma_enc_broadcast_prefix(
    a: crate::broadcasting::Broadcast,
    b: crate::broadcasting::Broadcast,
    ra: Seq<u8>,
    rb: Seq<u8>,
)
    requires
        enc_broadcast(a) + ra == enc_broadcast(b) + rb,
        encodable_broadcast(a),
        encodable_broadcast(b),
    ensures
        enc_broadcast(a) == enc_broadcast(b),
        ra == rb,
        a.eqv(b),
{
    assert(enc_broadcast(a) + ra =~= enc_broadcast_request(a.request) + (enc_bre_seq(a.responses@)
        + ra));
    assert(enc_broadcast(b) + rb =~= enc_broadcast_request(b.request) + (enc_bre_seq(b.responses@)
        + rb));
    lemma_enc_broadcast_request_prefix(
        a.request,
        b.request,
        enc_bre_seq(a.responses@) + ra,
        enc_bre_seq(b.responses@) + rb,
    );
    lemma_enc_bre_seq_prefix(a.responses@, b.responses@, ra, rb);
    assert(enc_broadcast(a) =~= enc_broadcast(b));
}



/// Strip a shared leading tag byte from two equal streams.
pub proof fn lemma_tag_strip(tag: u8, pa: Seq<u8>, pb: Seq<u8>, ra: Seq<u8>, rb: Seq<u8>)
    requires
        (seq![tag] + pa) + ra == (seq![tag] + pb) + rb,
    ensures
        pa + ra == pb + rb,
{
    assert((seq![tag] + pa) + ra =~= seq![tag] + (pa + ra));
    assert((seq![tag] + pb) + rb =~= seq![tag] + (pb + rb));
    lemma_concat_parts(seq![tag], pa + ra, seq![tag], pb + rb);
}

/// The wire form of a route query.
pub open spec fn enc_route_query(q: crate::routing::RouteQuery) -> Seq<u8> {
    enc_opt_route_seq(q.routes) + enc_opt_str_seq(q.destination_ids) + enc_opt_str_seq(
        q.gateway_ids,
    )
}

/// A route query that fits the wire.
pub open spec fn encodable_route_query(q: crate::routing::RouteQuery) -> bool {
    encodable_opt_route_seq(q.routes) && encodable_opt_str_seq(q.destination_ids)
        && encodable_opt_str_seq(q.gateway_ids)
}

/// Two route-query encodings that open the same stream agree.
#[verifier::spinoff_prover]
#[verifier::rlimit(100)]
pub proof fn lemma_enc_route_query_prefix(
    x: crate::routing::RouteQuery,
    y: crate::routing::RouteQuery,
    ra: Seq<u8>,
    rb: Seq<u8>,
)
    requires
        enc_route_query(x) + ra == enc_route_query(y) + rb,
        encodable_route_query(x),
        encodable_route_query(y),
    ensures
        enc_route_query(x) == enc_route_query(y),
        ra == rb,
        x.eqv(y),
{
    assert(enc_route_query(x) + ra =~= enc_opt_route_seq(x.routes) + (enc_opt_str_seq(
        x.destination_ids,
    ) + (enc_opt_str_seq(x.gateway_ids) + ra)));
    assert(enc_route_query(y) + rb =~= enc_opt_route_seq(y.routes) + (enc_opt_str_seq(
        y.destination_ids,
    ) + (enc_opt_str_seq(y.gateway_ids) + rb)));
    lemma_enc_opt_route_seq_prefix(
        x.routes,
        y.routes,
        enc_opt_str_seq(x.destination_ids) + (enc_opt_str_seq(x.gateway_ids) + ra),
        enc_opt_str_seq(y.destination_ids) + (enc_opt_str_seq(y.gateway_ids) + rb),
    );
    lemma_enc_opt_str_seq_prefix(
        x.destination_ids,
        y.destination_ids,
        enc_opt_str_seq(x.gateway_ids) + ra,
        enc_opt_str_seq(y.gateway_ids) + rb,
    );
    lemma_enc_opt_str_seq_prefix(x.gateway_ids, y.gateway_ids, ra, rb);
    assert(enc_route_query(x) =~= enc_route_query(y));
}

/// The wire form of an optional stored-ticket list.
pub open spec fn enc_opt_ticket_list(v: Option<Vec<crate::ticket::Ticket>>) -> Seq<u8>
    decreases v,
{
    match v {
        None => seq![0u8],
        Some(x) => seq![1u8] + enc_u64(x@.len() as u64) + enc_ticket_cat(x@),
    }
}

/// An optional stored-ticket list that fits the wire.
pub open spec fn encodable_opt_ticket_list(v: Option<Vec<crate::ticket::Ticket>>) -> bool
    decreases v,
{
    match v {
        None => true,
        Some(x) => x@.len() < 0x1_0000_0000_0000_0000 && encodable_ticket_cat(x@),
    }
}

/// The wire form of an optional ticket payload.
pub open spec fn enc_opt_tm(m: Option<crate::ticket::TicketMessage>) -> Seq<u8>
    decreases m,
{
    match m {
        None => seq![0u8],
        Some(x) => seq![1u8] + enc_ticket_message(x),
    }
}

/// An optional ticket payload that fits the wire.
pub open spec fn encodable_opt_tm(m: Option<crate::ticket::TicketMessage>) -> bool
    decreases m,
{
    match m {
        None => true,
        Some(x) => encodable_ticket_message(x),
    }
}

/// The wire form of a ticket payload: a variant tag, then the payload.
pub open spec fn enc_ticket_message(m: crate::ticket::TicketMessage) -> Seq<u8>
    decreases m,
{
    match m {
        crate::ticket::TicketMessage::Test => seq![0u8],
        crate::ticket::TicketMessage::BeginTrace(t) => seq![1u8] + enc_trace(t),
        crate::ticket::TicketMessage::DrainTrace(t) => seq![2u8] + enc_trace(t),
        crate::ticket::TicketMessage::PollTrace(t) => seq![3u8] + enc_trace(t),
        crate::ticket::TicketMessage::RouteQuery(q) => seq![4u8] + enc_route_query(q),
        crate::ticket::TicketMessage::PeerQuery(q) => seq![5u8] + enc_opt_peer_seq(q.peers),
        crate::ticket::TicketMessage::TicketQuery(q) => seq![6u8] + enc_opt_ticket_list(
            q.tickets,
        ),
        crate::ticket::TicketMessage::BeginBroadcast(x) => seq![7u8] + enc_broadcast(x),
        crate::ticket::TicketMessage::DrainBroadcast(x) => seq![8u8] + enc_broadcast(x),
        crate::ticket::TicketMessage::PollBroadcast(x) => seq![9u8] + enc_broadcast(x),
    }
}

/// The wire forms of stored tickets, one after the other.
pub open spec fn enc_ticket_cat(s: Seq<crate::ticket::Ticket>) -> Seq<u8>
    decreases s,
{
    if s.len() == 0 {
        Seq::empty()
    } else {
        enc_ticket(s[0]) + enc_ticket_cat(s.drop_first())
    }
}

/// The wire form of a stored ticket.
pub open spec fn enc_ticket(t: crate::ticket::Ticket) -> Seq<u8>
    decreases t,
{
    enc_ticket_message(t.request.ticket_message) + enc_str(t.request.ticket_id) + enc_opt_tm(
        t.response,
    ) + enc_opt_str(t.destination_id) + enc_u64(t.start_time) + enc_opt_u64(t.stop_time)
}

/// A ticket payload that fits the wire.
pub open spec fn encodable_ticket_message(m: crate::ticket::TicketMessage) -> bool
    decreases m,
{
    match m {
        crate::ticket::TicketMessage::Test => true,
        crate::ticket::TicketMessage::BeginTrace(t) => encodable_trace(t),
        crate::ticket::TicketMessage::DrainTrace(t) => encodable_trace(t),
        crate::ticket::TicketMessage::PollTrace(t) => encodable_trace(t),
        crate::ticket::TicketMessage::RouteQuery(q) => encodable_route_query(q),
        crate::ticket::TicketMessage::PeerQuery(q) => encodable_opt_peer_seq(q.peers),
        crate::ticket::TicketMessage::TicketQuery(q) => encodable_opt_ticket_list(q.tickets),
        crate::ticket::TicketMessage::BeginBroadcast(x) => encodable_broadcast(x),
        crate::ticket::TicketMessage::DrainBroadcast(x) => encodable_broadcast(x),
        crate::ticket::TicketMessage::PollBroadcast(x) => encodable_broadcast(x),
    }
}

/// Stored tickets that fit the wire, one after the other.
pub open spec fn encodable_ticket_cat(s: Seq<crate::ticket::Ticket>) -> bool
    decreases s,
{
    if s.len() == 0 {
        true
    } else {
        encodable_ticket(s[0]) && encodable_ticket_cat(s.drop_first())
    }
}

/// A stored ticket that fits the wire.
pub open spec fn encodable_ticket(t: crate::ticket::Ticket) -> bool
    decreases t,
{
    encodable_ticket_message(t.request.ticket_message) && encodable_str(t.request.ticket_id)
        && encodable_opt_tm(t.response) && encodable_opt_str(t.destination_id)
}

/// Every stored ticket of an encodable train is itself encodable.
pub proof fn lemma_encodable_ticket_cat_elem(s: Seq<crate::ticket::Ticket>, c: int)
    requires
        encodable_ticket_cat(s),
        0 <= c < s.len(),
    ensures
        encodable_ticket(s[c]),
    decreases c,
{
    if c > 0 {
        lemma_encodable_ticket_cat_elem(s.drop_first(), c - 1);
        assert(s.drop_first()[c - 1] == s[c]);
    }
}

/// One more stored ticket extends the train at the end.
pub proof fn lemma_enc_ticket_cat_snoc(s: Seq<crate::ticket::Ticket>, x: crate::ticket::Ticket)
    ensures
        enc_ticket_cat(s.push(x)) == enc_ticket_cat(s) + enc_ticket(x),
        encodable_ticket_cat(s) && encodable_ticket(x) ==> encodable_ticket_cat(s.push(x)),
    decreases s.len(),
{
    if s.len() == 0 {
        assert(s.push(x).drop_first() =~= Seq::<crate::ticket::Ticket>::empty());
        assert(s.push(x)[0] == x);
        assert(enc_ticket_cat(s.push(x)) == enc_ticket(x) + enc_ticket_cat(
            s.push(x).drop_first(),
        ));
        assert(encodable_ticket_cat(s.push(x)) == (encodable_ticket(x) && encodable_ticket_cat(
            s.push(x).drop_first(),
        )));
        assert(enc_ticket_cat(s.push(x)) =~= enc_ticket_cat(s) + enc_ticket(x));
    } else {
        assert(s.push(x).drop_first() =~= s.drop_first().push(x));
        assert(s.push(x)[0] == s[0]);
        lemma_enc_ticket_cat_snoc(s.drop_first(), x);
        assert(enc_ticket_cat(s.push(x)) == enc_ticket(s[0]) + enc_ticket_cat(
            s.push(x).drop_first(),
        ));
        assert(encodable_ticket_cat(s.push(x)) == (encodable_ticket(s[0])
            && encodable_ticket_cat(s.push(x).drop_first())));
        assert(enc_ticket_cat(s.push(x)) =~= enc_ticket_cat(s) + enc_ticket(x));
    }
}

/// Append the wire form of a ticket payload.
#[verifier::rlimit(100)]
pub fn write_ticket_message(m: &crate::ticket::TicketMessage, buf: &mut Vec<u8>)
    ensures
        final(buf)@ == old(buf)@ + enc_ticket_message(*m),
        encodable_ticket_message(*m),
    decreases crate::ticket::ticket_message_size(*m),
{
    match m {
        crate::ticket::TicketMessage::Test => {
            buf.push(0u8);
            proof {
                assert(final(buf)@ =~= old(buf)@ + enc_ticket_message(*m));
            }
        },
        crate::ticket::TicketMessage::BeginTrace(t) => {
            buf.push(1u8);
            write_trace(t, buf);
            proof {
                assert(final(buf)@ =~= old(buf)@ + enc_ticket_message(*m));
            }
        },
        crate::ticket::TicketMessage::DrainTrace(t) => {
            buf.push(2u8);
            write_trace(t, buf);
            proof {
                assert(final(buf)@ =~= old(buf)@ + enc_ticket_message(*m));
            }
        },
        crate::ticket::TicketMessage::PollTrace(t) => {
            buf.push(3u8);
            write_trace(t, buf);
            proof {
                assert(final(buf)@ =~= old(buf)@ + enc_ticket_message(*m));
            }
        },
        crate::ticket::TicketMessage::RouteQuery(q) => {
            buf.push(4u8);
            write_opt_route_seq(&q.routes, buf);
            write_opt_str_seq(&q.destination_ids, buf);
            write_opt_str_seq(&q.gateway_ids, buf);
            proof {
                assert(final(buf)@ =~= old(buf)@ + enc_ticket_message(*m));
            }
        },
        crate::ticket::TicketMessage::PeerQuery(q) => {
            buf.push(5u8);
            write_opt_peer_seq(&q.peers, buf);
            proof {
                assert(final(buf)@ =~= old(buf)@ + enc_ticket_message(*m));
            }
        },
        crate::ticket::TicketMessage::TicketQuery(q) => {
            buf.push(6u8);
            match &q.tickets {
                None => {
                    buf.push(0u8);
                    proof {
                        assert(final(buf)@ =~= old(buf)@ + enc_ticket_message(*m));
                    }
                },
                Some(v) => {
                    buf.push(1u8);
                    write_u64(v.len() as u64, buf);
                    let ghost base = buf@;
                    let mut i: usize = 0;
                    while i < v.len()
                        invariant
                            0 <= i <= v@.len(),
                            buf@ == base + enc_ticket_cat(v@.take(i as int)),
                            encodable_ticket_cat(v@.take(i as int)),
                            crate::ticket::ticket_message_size(*m) == 2
                                + crate::ticket::ticket_seq_size(v@),
                        decreases v@.len() - i,
                    {
                        proof {
                            crate::ticket::lemma_ticket_seq_size_element(v@, i as int);
                        }
                        write_ticket(&v[i], buf);
                        proof {
                            assert(v@.take(i + 1 as int) =~= v@.take(i as int).push(v@[i as int]));
                            lemma_enc_ticket_cat_snoc(v@.take(i as int), v@[i as int]);
                            assert(buf@ =~= base + enc_ticket_cat(v@.take(i + 1 as int)));
                        }
                        i = i + 1;
                    }
                    proof {
                        assert(v@.take(v@.len() as int) =~= v@);
                        assert(final(buf)@ =~= old(buf)@ + enc_ticket_message(*m));
                    }
                },
            }
        },
        crate::ticket::TicketMessage::BeginBroadcast(x) => {
            buf.push(7u8);
            write_broadcast(x, buf);
            proof {
                assert(final(buf)@ =~= old(buf)@ + enc_ticket_message(*m));
            }
        },
        crate::ticket::TicketMessage::DrainBroadcast(x) => {
            buf.push(8u8);
            write_broadcast(x, buf);
            proof {
                assert(final(buf)@ =~= old(buf)@ + enc_ticket_message(*m));
            }
        },
        crate::ticket::TicketMessage::PollBroadcast(x) => {
            buf.push(9u8);
            write_broadcast(x, buf);
            proof {
                assert(final(buf)@ =~= old(buf)@ + enc_ticket_message(*m));
            }
        },
    }
}

/// Append the wire form of a stored ticket.
#[verifier::rlimit(100)]
pub fn write_ticket(t: &crate::ticket::Ticket, buf: &mut Vec<u8>)
    ensures
        final(buf)@ == old(buf)@ + enc_ticket(*t),
        encodable_ticket(*t),
    decreases crate::ticket::ticket_size(*t),
{
    write_ticket_message(&t.request.ticket_message, buf);
    write_str(&t.request.ticket_id, buf);
    match &t.response {
        None => {
            buf.push(0u8);
        },
        Some(m) => {
            buf.push(1u8);
            write_ticket_message(m, buf);
        },
    }
    write_opt_str(&t.destination_id, buf);
    write_u64(t.start_time, buf);
    write_opt_u64(&t.stop_time, buf);
    proof {
        assert(final(buf)@ =~= old(buf)@ + enc_ticket(*t));
    }
}

/// The tag byte that names a ticket payload's variant on the wire.
pub open spec fn tm_tag(v: crate::ticket::TicketMessage) -> u8 {
    match v {
        crate::ticket::TicketMessage::Test => 0u8,
        crate::ticket::TicketMessage::BeginTrace(t) => 1u8,
        crate::ticket::TicketMessage::DrainTrace(t) => 2u8,
        crate::ticket::TicketMessage::PollTrace(t) => 3u8,
        crate::ticket::TicketMessage::RouteQuery(q) => 4u8,
        crate::ticket::TicketMessage::PeerQuery(q) => 5u8,
        crate::ticket::TicketMessage::TicketQuery(q) => 6u8,
        crate::ticket::TicketMessage::BeginBroadcast(x) => 7u8,
        crate::ticket::TicketMessage::DrainBroadcast(x) => 8u8,
        crate::ticket::TicketMessage::PollBroadcast(x) => 9u8,
    }
}

/// Where a ticket payload's body starts once its variant tag is read:
/// the stream right after the tag opens with the variant's body.
pub open spec fn tm_body_opens(
    bytes: Seq<u8>,
    k: int,
    v: crate::ticket::TicketMessage,
    rest: Seq<u8>,
) -> bool {
    match v {
        crate::ticket::TicketMessage::Test => true,
        crate::ticket::TicketMessage::BeginTrace(t) => stream_opens(bytes, k, enc_trace(t), rest),
        crate::ticket::TicketMessage::DrainTrace(t) => stream_opens(bytes, k, enc_trace(t), rest),
        crate::ticket::TicketMessage::PollTrace(t) => stream_opens(bytes, k, enc_trace(t), rest),
        crate::ticket::TicketMessage::RouteQuery(q) => stream_opens(
            bytes,
            k,
            enc_route_query(q),
            rest,
        ),
        crate::ticket::TicketMessage::PeerQuery(q) => stream_opens(
            bytes,
            k,
            enc_opt_peer_seq(q.peers),
            rest,
        ),
        crate::ticket::TicketMessage::TicketQuery(q) => stream_opens(
            bytes,
            k,
            enc_opt_ticket_list(q.tickets),
            rest,
        ),
        crate::ticket::TicketMessage::BeginBroadcast(x) => stream_opens(
            bytes,
            k,
            enc_broadcast(x),
            rest,
        ),
        crate::ticket::TicketMessage::DrainBroadcast(x) => stream_opens(
            bytes,
            k,
            enc_broadcast(x),
            rest,
        ),
        crate::ticket::TicketMessage::PollBroadcast(x) => stream_opens(
            bytes,
            k,
            enc_broadcast(x),
            rest,
        ),
    }
}

/// Every ticket payload has at least its tag byte on the wire.
pub proof fn lemma_enc_ticket_message_len(m: crate::ticket::TicketMessage)
    ensures
        enc_ticket_message(m).len() >= 1,
{
    match m {
        crate::ticket::TicketMessage::Test => {},
        crate::ticket::TicketMessage::BeginTrace(t) => {},
        crate::ticket::TicketMessage::DrainTrace(t) => {},
        crate::ticket::TicketMessage::PollTrace(t) => {},
        crate::ticket::TicketMessage::RouteQuery(q) => {},
        crate::ticket::TicketMessage::PeerQuery(q) => {},
        crate::ticket::TicketMessage::TicketQuery(q) => {},
        crate::ticket::TicketMessage::BeginBroadcast(x) => {},
        crate::ticket::TicketMessage::DrainBroadcast(x) => {},
        crate::ticket::TicketMessage::PollBroadcast(x) => {},
    }
}

/// An opened ticket payload names its variant in the tag byte, and its
/// body follows.
pub proof fn lemma_tm_opens_body(
    bytes: Seq<u8>,
    i: int,
    v: crate::ticket::TicketMessage,
    rest: Seq<u8>,
)
    requires
        stream_opens(bytes, i, enc_ticket_message(v), rest),
    ensures
        i < bytes.len(),
        bytes[i] == tm_tag(v),
        tm_body_opens(bytes, i + 1, v, rest),
{
    lemma_enc_ticket_message_len(v);
    lemma_stream_opens_parts(bytes, i, enc_ticket_message(v), rest);
    assert(bytes[i] == bytes.subrange(i, i + enc_ticket_message(v).len())[0]);
    match v {
        crate::ticket::TicketMessage::Test => {
            assert(enc_ticket_message(v) + rest =~= seq![0u8] + rest);
            lemma_stream_opens_parts(bytes, i, seq![0u8], rest);
            assert(bytes[i] == bytes.subrange(i, i + 1)[0]);
        },
        crate::ticket::TicketMessage::BeginTrace(t) => {
            assert(enc_ticket_message(v) + rest =~= seq![1u8] + (enc_trace(t) + rest));
            lemma_stream_opens_parts(bytes, i, seq![1u8], enc_trace(t) + rest);
            assert(bytes[i] == bytes.subrange(i, i + 1)[0]);
        },
        crate::ticket::TicketMessage::DrainTrace(t) => {
            assert(enc_ticket_message(v) + rest =~= seq![2u8] + (enc_trace(t) + rest));
            lemma_stream_opens_parts(bytes, i, seq![2u8], enc_trace(t) + rest);
            assert(bytes[i] == bytes.subrange(i, i + 1)[0]);
        },
        crate::ticket::TicketMessage::PollTrace(t) => {
            assert(enc_ticket_message(v) + rest =~= seq![3u8] + (enc_trace(t) + rest));
            lemma_stream_opens_parts(bytes, i, seq![3u8], enc_trace(t) + rest);
            assert(bytes[i] == bytes.subrange(i, i + 1)[0]);
        },
        crate::ticket::TicketMessage::RouteQuery(q) => {
            assert(enc_ticket_message(v) + rest =~= seq![4u8] + (enc_route_query(q) + rest));
            lemma_stream_opens_parts(bytes, i, seq![4u8], enc_route_query(q) + rest);
            assert(bytes[i] == bytes.subrange(i, i + 1)[0]);
        },
        crate::ticket::TicketMessage::PeerQuery(q) => {
            assert(enc_ticket_message(v) + rest =~= seq![5u8] + (enc_opt_peer_seq(q.peers) + rest));
            lemma_stream_opens_parts(bytes, i, seq![5u8], enc_opt_peer_seq(q.peers) + rest);
            assert(bytes[i] == bytes.subrange(i, i + 1)[0]);
        },
        crate::ticket::TicketMessage::TicketQuery(q) => {
            assert(enc_ticket_message(v) + rest =~= seq![6u8] + (enc_opt_ticket_list(q.tickets)
                + rest));
            lemma_stream_opens_parts(bytes, i, seq![6u8], enc_opt_ticket_list(q.tickets) + rest);
            assert(bytes[i] == bytes.subrange(i, i + 1)[0]);
        },
        crate::ticket::TicketMessage::BeginBroadcast(x) => {
            assert(enc_ticket_message(v) + rest =~= seq![7u8] + (enc_broadcast(x) + rest));
            lemma_stream_opens_parts(bytes, i, seq![7u8], enc_broadcast(x) + rest);
            assert(bytes[i] == bytes.subrange(i, i + 1)[0]);
        },
        crate::ticket::TicketMessage::DrainBroadcast(x) => {
            assert(enc_ticket_message(v) + rest =~= seq![8u8] + (enc_broadcast(x) + rest));
            lemma_stream_opens_parts(bytes, i, seq![8u8], enc_broadcast(x) + rest);
            assert(bytes[i] == bytes.subrange(i, i + 1)[0]);
        },
        crate::ticket::TicketMessage::PollBroadcast(x) => {
            assert(enc_ticket_message(v) + rest =~= seq![9u8] + (enc_broadcast(x) + rest));
            lemma_stream_opens_parts(bytes, i, seq![9u8], enc_broadcast(x) + rest);
            assert(bytes[i] == bytes.subrange(i, i + 1)[0]);
        },
    }
}

/// Read a route query back.
pub fn read_route_query(bytes: &Vec<u8>, i: usize) -> (r: Option<(crate::routing::RouteQuery, usize)>)
    ensures
        r matches Some((v, j)) ==> i <= j <= bytes@.len() && bytes@.subrange(i as int, j as int)
            == enc_route_query(v) && encodable_route_query(v),
        forall|v: crate::routing::RouteQuery, rest: Seq<u8>|
            encodable_route_query(v) && #[trigger] stream_opens(bytes@, i as int, enc_route_query(v), rest)
                ==> r is Some,
{
    proof {
        assert forall|v: crate::routing::RouteQuery, rest: Seq<u8>|
            encodable_route_query(v) && #[trigger] stream_opens(bytes@, i as int, enc_route_query(v), rest)
            implies stream_opens(bytes@, i as int, enc_opt_route_seq(v.routes), enc_opt_str_seq(v.destination_ids) + (enc_opt_str_seq(v.gateway_ids) + (rest))) by {
            assert(enc_route_query(v) + rest =~= enc_opt_route_seq(v.routes) + (enc_opt_str_seq(v.destination_ids) + (enc_opt_str_seq(v.gateway_ids) + (rest))));
        }
    }
    let (routes, k0) = match read_opt_route_seq(bytes, i) {
        Some(p) => p,
        None => { return None; },
    };
    proof {
        assert forall|v: crate::routing::RouteQuery, rest: Seq<u8>|
            encodable_route_query(v) && #[trigger] stream_opens(bytes@, i as int, enc_route_query(v), rest)
            implies stream_opens(bytes@, k0 as int, enc_opt_str_seq(v.destination_ids), enc_opt_str_seq(v.gateway_ids) + (rest)) by {
            lemma_stream_feed(bytes@, i as int, k0 as int, enc_opt_route_seq(v.routes), enc_opt_str_seq(v.destination_ids) + (enc_opt_str_seq(v.gateway_ids) + (rest)));
            lemma_enc_opt_route_seq_prefix(routes, v.routes, bytes@.skip(k0 as int), enc_opt_str_seq(v.destination_ids) + (enc_opt_str_seq(v.gateway_ids) + (rest)));
        }
    }
    let (destination_ids, k1) = match read_opt_str_seq(bytes, k0) {
        Some(p) => p,
        None => { return None; },
    };
    proof {
        assert forall|v: crate::routing::RouteQuery, rest: Seq<u8>|
            encodable_route_query(v) && #[trigger] stream_opens(bytes@, i as int, enc_route_query(v), rest)
            implies stream_opens(bytes@, k1 as int, enc_opt_str_seq(v.gateway_ids), rest) by {
            lemma_stream_feed(bytes@, k0 as int, k1 as int, enc_opt_str_seq(v.destination_ids), enc_opt_str_seq(v.gateway_ids) + (rest));
            lemma_enc_opt_str_seq_prefix(destination_ids, v.destination_ids, bytes@.skip(k1 as int), enc_opt_str_seq(v.gateway_ids) + (rest));
        }
    }
    let (gateway_ids, j) = match read_opt_str_seq(bytes, k1) {
        Some(p) => p,
        None => { return None; },
    };
    let v = crate::routing::RouteQuery { routes, destination_ids, gateway_ids };
    proof {
        assert(bytes@.subrange(i as int, j as int) =~= enc_route_query(v));
    }
    Some((v, j))
}

/// Read an optional stored-ticket list back.
pub fn read_opt_ticket_list(bytes: &Vec<u8>, i: usize) -> (r: Option<
    (Option<Vec<crate::ticket::Ticket>>, usize),
>)
    ensures
        r matches Some((m, j)) ==> i <= j <= bytes@.len() && bytes@.subrange(i as int, j as int)
            == enc_opt_ticket_list(m) && encodable_opt_ticket_list(m),
        forall|v: Option<Vec<crate::ticket::Ticket>>, rest: Seq<u8>|
            encodable_opt_ticket_list(v) && #[trigger] stream_opens(
                bytes@,
                i as int,
                enc_opt_ticket_list(v),
                rest,
            ) ==> r is Some,
    decreases bytes@.len() - i, 3int,
{
    proof {
        assert forall|v: Option<Vec<crate::ticket::Ticket>>, rest: Seq<u8>|
            encodable_opt_ticket_list(v) && #[trigger] stream_opens(
                bytes@,
                i as int,
                enc_opt_ticket_list(v),
                rest,
            ) implies match v {
            None => stream_opens(bytes@, i as int, enc_bool(false), rest),
            Some(x) => stream_opens(
                bytes@,
                i as int,
                enc_bool(true),
                (enc_u64(x@.len() as u64) + enc_ticket_cat(x@)) + rest,
            ),
        } by {
            match v {
                None => {
                    assert(enc_opt_ticket_list(v) + rest =~= enc_bool(false) + rest);
                },
                Some(x) => {
                    assert(enc_opt_ticket_list(v) + rest =~= enc_bool(true) + ((enc_u64(
                        x@.len() as u64,
                    ) + enc_ticket_cat(x@)) + rest));
                },
            }
        }
    }
    let (flag, k) = match read_bool(bytes, i) {
        Some(p) => p,
        None => { return None; },
    };
    if !flag {
        proof {
            assert(enc_opt_ticket_list(None) =~= enc_bool(false));
        }
        return Some((None, k));
    }
    proof {
        assert forall|v: Option<Vec<crate::ticket::Ticket>>, rest: Seq<u8>|
            encodable_opt_ticket_list(v) && #[trigger] stream_opens(
                bytes@,
                i as int,
                enc_opt_ticket_list(v),
                rest,
            ) implies (v matches Some(x) && stream_opens(
            bytes@,
            k as int,
            enc_u64(x@.len() as u64) + enc_ticket_cat(x@),
            rest,
        )) by {
            match v {
                None => {
                    lemma_stream_feed(bytes@, i as int, k as int, enc_bool(false), rest);
                    lemma_enc_bool_prefix(true, false, bytes@.skip(k as int), rest);
                },
                Some(x) => {
                    lemma_stream_feed(
                        bytes@,
                        i as int,
                        k as int,
                        enc_bool(true),
                        (enc_u64(x@.len() as u64) + enc_ticket_cat(x@)) + rest,
                    );
                    lemma_enc_bool_prefix(
                        true,
                        true,
                        bytes@.skip(k as int),
                        (enc_u64(x@.len() as u64) + enc_ticket_cat(x@)) + rest,
                    );
                },
            }
        }
    }
    match read_ticket_list(bytes, k) {
        Some((out, j)) => {
            proof {
                assert(bytes@.subrange(i as int, j as int) =~= bytes@.subrange(i as int, k as int)
                    + bytes@.subrange(k as int, j as int));
                assert(enc_opt_ticket_list(Some(out)) =~= bytes@.subrange(i as int, j as int));
            }
            Some((Some(out), j))
        },
        None => None,
    }
}

/// Read a length-prefixed train of stored tickets back.
#[verifier::spinoff_prover]
#[verifier::rlimit(100)]
pub fn read_ticket_list(bytes: &Vec<u8>, i: usize) -> (r: Option<
    (Vec<crate::ticket::Ticket>, usize),
>)
    ensures
        r matches Some((v, j)) ==> i <= j <= bytes@.len() && bytes@.subrange(i as int, j as int)
            == enc_u64(v@.len() as u64) + enc_ticket_cat(v@) && encodable_ticket_cat(v@)
            && v@.len() < 0x1_0000_0000_0000_0000,
        forall|x: Seq<crate::ticket::Ticket>, rest: Seq<u8>|
            x.len() < 0x1_0000_0000_0000_0000 && encodable_ticket_cat(x) && #[trigger] stream_opens(
                bytes@,
                i as int,
                enc_u64(x.len() as u64) + enc_ticket_cat(x),
                rest,
            ) ==> r is Some,
    decreases bytes@.len() - i, 0int,
{
    proof {
        assert forall|x: Seq<crate::ticket::Ticket>, rest: Seq<u8>|
            x.len() < 0x1_0000_0000_0000_0000 && encodable_ticket_cat(x) && #[trigger] stream_opens(
                bytes@,
                i as int,
                enc_u64(x.len() as u64) + enc_ticket_cat(x),
                rest,
            ) implies stream_opens(
            bytes@,
            i as int,
            enc_u64(x.len() as u64),
            enc_ticket_cat(x) + rest,
        ) by {
            assert((enc_u64(x.len() as u64) + enc_ticket_cat(x)) + rest =~= enc_u64(
                x.len() as u64,
            ) + (enc_ticket_cat(x) + rest));
        }
    }
    let (n, k2) = match read_u64(bytes, i) {
        Some(p) => p,
        None => { return None; },
    };
    proof {
        assert forall|x: Seq<crate::ticket::Ticket>, rest: Seq<u8>|
            x.len() < 0x1_0000_0000_0000_0000 && encodable_ticket_cat(x) && #[trigger] stream_opens(
                bytes@,
                i as int,
                enc_u64(x.len() as u64) + enc_ticket_cat(x),
                rest,
            ) implies x.len() == n && stream_opens(
            bytes@,
            k2 as int,
            enc_ticket_cat(x.skip(0)),
            rest,
        ) by {
            lemma_auto_spec_u64_to_from_le_bytes();
            lemma_stream_feed(bytes@, i as int, k2 as int, enc_u64(x.len() as u64), enc_ticket_cat(
                x,
            ) + rest);
            lemma_concat_parts(
                enc_u64(n),
                bytes@.skip(k2 as int),
                enc_u64(x.len() as u64),
                enc_ticket_cat(x) + rest,
            );
            assert(spec_u64_from_le_bytes(enc_u64(n)) == spec_u64_from_le_bytes(
                enc_u64(x.len() as u64),
            ));
            assert(x.skip(0) =~= x);
        }
    }
    let mut out: Vec<crate::ticket::Ticket> = Vec::new();
    let mut cur = k2;
    let mut c: u64 = 0;
    while c < n
        invariant
            i + 8 == k2,
            k2 <= cur <= bytes@.len(),
            c <= n,
            out@.len() == c,
            bytes@.subrange(k2 as int, cur as int) == enc_ticket_cat(out@),
            encodable_ticket_cat(out@),
            forall|x: Seq<crate::ticket::Ticket>, rest: Seq<u8>|
                x.len() < 0x1_0000_0000_0000_0000 && encodable_ticket_cat(x)
                    && #[trigger] stream_opens(
                    bytes@,
                    i as int,
                    enc_u64(x.len() as u64) + enc_ticket_cat(x),
                    rest,
                ) ==> x.len() == n && stream_opens(
                    bytes@,
                    cur as int,
                    enc_ticket_cat(x.skip(c as int)),
                    rest,
                ),
        decreases n - c,
    {
        proof {
            assert forall|x: Seq<crate::ticket::Ticket>, rest: Seq<u8>|
                x.len() < 0x1_0000_0000_0000_0000 && encodable_ticket_cat(x)
                    && #[trigger] stream_opens(
                    bytes@,
                    i as int,
                    enc_u64(x.len() as u64) + enc_ticket_cat(x),
                    rest,
                ) implies stream_opens(
                bytes@,
                cur as int,
                enc_ticket(x[c as int]),
                enc_ticket_cat(x.skip(c + 1)) + rest,
            ) && encodable_ticket(x[c as int]) by {
                let s = x.skip(c as int);
                assert(s[0] == x[c as int]);
                assert(s.drop_first() =~= x.skip(c + 1));
                assert(enc_ticket_cat(s) == enc_ticket(s[0]) + enc_ticket_cat(s.drop_first()));
                assert(enc_ticket_cat(s) + rest =~= enc_ticket(x[c as int]) + (enc_ticket_cat(
                    x.skip(c + 1),
                ) + rest));
                lemma_encodable_ticket_cat_elem(x, c as int);
            }
        }
        let (row, j) = match read_ticket(bytes, cur) {
            Some(p) => p,
            None => { return None; },
        };
        proof {
            assert forall|x: Seq<crate::ticket::Ticket>, rest: Seq<u8>|
                x.len() < 0x1_0000_0000_0000_0000 && encodable_ticket_cat(x)
                    && #[trigger] stream_opens(
                    bytes@,
                    i as int,
                    enc_u64(x.len() as u64) + enc_ticket_cat(x),
                    rest,
                ) implies stream_opens(
                bytes@,
                j as int,
                enc_ticket_cat(x.skip(c + 1)),
                rest,
            ) by {
                lemma_stream_feed(
                    bytes@,
                    cur as int,
                    j as int,
                    enc_ticket(x[c as int]),
                    enc_ticket_cat(x.skip(c + 1)) + rest,
                );
                lemma_enc_ticket_prefix(
                    row,
                    x[c as int],
                    bytes@.skip(j as int),
                    enc_ticket_cat(x.skip(c + 1)) + rest,
                );
            }
            lemma_enc_ticket_cat_snoc(out@, row);
            assert(bytes@.subrange(k2 as int, j as int) =~= bytes@.subrange(
                k2 as int,
                cur as int,
            ) + bytes@.subrange(cur as int, j as int));
        }
        out.push(row);
        cur = j;
        c = c + 1;
    }
    proof {
        lemma_auto_spec_u64_to_from_le_bytes();
        assert(bytes@.subrange(i as int, cur as int) =~= bytes@.subrange(i as int, k2 as int)
            + bytes@.subrange(k2 as int, cur as int));
    }
    Some((out, cur))
}

/// Read a ticket payload back.
/// Read a ticket payload back.
#[verifier::spinoff_prover]
#[verifier::rlimit(100)]
pub fn read_ticket_message(bytes: &Vec<u8>, i: usize) -> (r: Option<
    (crate::ticket::TicketMessage, usize),
>)
    ensures
        r matches Some((v, j)) ==> i <= j <= bytes@.len() && bytes@.subrange(i as int, j as int)
            == enc_ticket_message(v) && encodable_ticket_message(v),
        forall|v: crate::ticket::TicketMessage, rest: Seq<u8>|
            encodable_ticket_message(v) && #[trigger] stream_opens(
                bytes@,
                i as int,
                enc_ticket_message(v),
                rest,
            ) ==> r is Some,
    decreases bytes@.len() - i, 1int,
{
    proof {
        assert forall|v: crate::ticket::TicketMessage, rest: Seq<u8>|
            encodable_ticket_message(v) && #[trigger] stream_opens(
                bytes@,
                i as int,
                enc_ticket_message(v),
                rest,
            ) implies i < bytes@.len() && bytes@[i as int] == tm_tag(v) && tm_body_opens(
            bytes@,
            i + 1,
            v,
            rest,
        ) by {
            lemma_tm_opens_body(bytes@, i as int, v, rest);
        }
    }
    if i >= bytes.len() {
        return None;
    }
    let tag = bytes[i];
    let k = i + 1;
    if tag == 0u8 {
        proof {
            assert(bytes@.subrange(i as int, k as int) =~= enc_ticket_message(
                crate::ticket::TicketMessage::Test,
            ));
        }
        Some((crate::ticket::TicketMessage::Test, k))
    } else if tag == 1u8 || tag == 2u8 || tag == 3u8 {
        let (t, j) = match read_trace(bytes, k) {
            Some(p) => p,
            None => {
                proof {
            assert forall|v: crate::ticket::TicketMessage, rest: Seq<u8>|
            encodable_ticket_message(v) && #[trigger] stream_opens(
                bytes@,
                i as int,
                enc_ticket_message(v),
                rest,
            ) implies false by {
                    match v {
                            crate::ticket::TicketMessage::BeginTrace(t) => {
                                assert(stream_opens(bytes@, k as int, enc_trace(t), rest));
                            },
                            crate::ticket::TicketMessage::DrainTrace(t) => {
                                assert(stream_opens(bytes@, k as int, enc_trace(t), rest));
                            },
                            crate::ticket::TicketMessage::PollTrace(t) => {
                                assert(stream_opens(bytes@, k as int, enc_trace(t), rest));
                            },
                        _ => {},
                    }
                }
                }
                return None;
            },
        };
        let v = if tag == 1u8 {
            crate::ticket::TicketMessage::BeginTrace(t)
        } else if tag == 2u8 {
            crate::ticket::TicketMessage::DrainTrace(t)
        } else {
            crate::ticket::TicketMessage::PollTrace(t)
        };
        proof {
            assert(bytes@.subrange(i as int, j as int) =~= seq![tag] + bytes@.subrange(
                k as int,
                j as int,
            ));
            assert(bytes@.subrange(i as int, j as int) =~= enc_ticket_message(v));
        }
        Some((v, j))
    } else if tag == 4u8 {
        let (q, j) = match read_route_query(bytes, k) {
            Some(p) => p,
            None => {
                proof {
            assert forall|v: crate::ticket::TicketMessage, rest: Seq<u8>|
            encodable_ticket_message(v) && #[trigger] stream_opens(
                bytes@,
                i as int,
                enc_ticket_message(v),
                rest,
            ) implies false by {
                    match v {
                            crate::ticket::TicketMessage::RouteQuery(q) => {
                                assert(stream_opens(bytes@, k as int, enc_route_query(q), rest));
                            },
                        _ => {},
                    }
                }
                }
                return None;
            },
        };
        let v = crate::ticket::TicketMessage::RouteQuery(q);
        proof {
            assert(bytes@.subrange(i as int, j as int) =~= enc_ticket_message(v));
        }
        Some((v, j))
    } else if tag == 5u8 {
        let (peers, j) = match read_opt_peer_seq(bytes, k) {
            Some(p) => p,
            None => {
                proof {
            assert forall|v: crate::ticket::TicketMessage, rest: Seq<u8>|
            encodable_ticket_message(v) && #[trigger] stream_opens(
                bytes@,
                i as int,
                enc_ticket_message(v),
                rest,
            ) implies false by {
                    match v {
                            crate::ticket::TicketMessage::PeerQuery(q) => {
                                assert(stream_opens(bytes@, k as int, enc_opt_peer_seq(q.peers), rest));
                            },
                        _ => {},
                    }
                }
                }
                return None;
            },
        };
        let v = crate::ticket::TicketMessage::PeerQuery(crate::peering::PeerQuery { peers });
        proof {
            assert(bytes@.subrange(i as int, j as int) =~= enc_ticket_message(v));
        }
        Some((v, j))
    } else if tag == 6u8 {
        let (tickets, j) = match read_opt_ticket_list(bytes, k) {
            Some(p) => p,
            None => {
                proof {
            assert forall|v: crate::ticket::TicketMessage, rest: Seq<u8>|
            encodable_ticket_message(v) && #[trigger] stream_opens(
                bytes@,
                i as int,
                enc_ticket_message(v),
                rest,
            ) implies false by {
                    match v {
                            crate::ticket::TicketMessage::TicketQuery(q) => {
                                assert(stream_opens(bytes@, k as int, enc_opt_ticket_list(q.tickets), rest));
                            },
                        _ => {},
                    }
                }
                }
                return None;
            },
        };
        let v = crate::ticket::TicketMessage::TicketQuery(crate::ticket::TicketQuery { tickets });
        proof {
            assert(bytes@.subrange(i as int, j as int) =~= enc_ticket_message(v));
        }
        Some((v, j))
    } else if tag == 7u8 || tag == 8u8 || tag == 9u8 {
        let (x, j) = match read_broadcast(bytes, k) {
            Some(p) => p,
            None => {
                proof {
            assert forall|v: crate::ticket::TicketMessage, rest: Seq<u8>|
            encodable_ticket_message(v) && #[trigger] stream_opens(
                bytes@,
                i as int,
                enc_ticket_message(v),
                rest,
            ) implies false by {
                    match v {
                            crate::ticket::TicketMessage::BeginBroadcast(x) => {
                                assert(stream_opens(bytes@, k as int, enc_broadcast(x), rest));
                            },
                            crate::ticket::TicketMessage::DrainBroadcast(x) => {
                                assert(stream_opens(bytes@, k as int, enc_broadcast(x), rest));
                            },
                            crate::ticket::TicketMessage::PollBroadcast(x) => {
                                assert(stream_opens(bytes@, k as int, enc_broadcast(x), rest));
                            },
                        _ => {},
                    }
                }
                }
                return None;
            },
        };
        let v = if tag == 7u8 {
            crate::ticket::TicketMessage::BeginBroadcast(x)
        } else if tag == 8u8 {
            crate::ticket::TicketMessage::DrainBroadcast(x)
        } else {
            crate::ticket::TicketMessage::PollBroadcast(x)
        };
        proof {
            assert(bytes@.subrange(i as int, j as int) =~= seq![tag] + bytes@.subrange(
                k as int,
                j as int,
            ));
            assert(bytes@.subrange(i as int, j as int) =~= enc_ticket_message(v));
        }
        Some((v, j))
    } else {
        None
    }
}

/// Read an optional ticket payload back.
pub fn read_opt_tm(bytes: &Vec<u8>, i: usize) -> (r: Option<
    (Option<crate::ticket::TicketMessage>, usize),
>)
    ensures
        r matches Some((m, j)) ==> i <= j <= bytes@.len() && bytes@.subrange(i as int, j as int)
            == enc_opt_tm(m) && encodable_opt_tm(m),
        forall|v: Option<crate::ticket::TicketMessage>, rest: Seq<u8>|
            encodable_opt_tm(v) && #[trigger] stream_opens(bytes@, i as int, enc_opt_tm(v), rest)
                ==> r is Some,
    decreases bytes@.len() - i, 0int,
{
    proof {
        assert forall|v: Option<crate::ticket::TicketMessage>, rest: Seq<u8>|
            encodable_opt_tm(v) && #[trigger] stream_opens(bytes@, i as int, enc_opt_tm(v), rest)
            implies match v {
            None => stream_opens(bytes@, i as int, enc_bool(false), rest),
            Some(x) => stream_opens(bytes@, i as int, enc_bool(true), enc_ticket_message(x) + rest),
        } by {
            match v {
                None => {
                    assert(enc_opt_tm(v) + rest =~= enc_bool(false) + rest);
                },
                Some(x) => {
                    assert(enc_opt_tm(v) + rest =~= enc_bool(true) + (enc_ticket_message(x) + rest));
                },
            }
        }
    }
    let (flag, k) = match read_bool(bytes, i) {
        Some(p) => p,
        None => { return None; },
    };
    if !flag {
        proof {
            assert(enc_opt_tm(None) =~= enc_bool(false));
        }
        return Some((None, k));
    }
    proof {
        assert forall|v: Option<crate::ticket::TicketMessage>, rest: Seq<u8>|
            encodable_opt_tm(v) && #[trigger] stream_opens(bytes@, i as int, enc_opt_tm(v), rest)
            implies (v matches Some(x) && stream_opens(
            bytes@,
            k as int,
            enc_ticket_message(x),
            rest,
        )) by {
            match v {
                None => {
                    lemma_stream_feed(bytes@, i as int, k as int, enc_bool(false), rest);
                    lemma_enc_bool_prefix(true, false, bytes@.skip(k as int), rest);
                },
                Some(x) => {
                    lemma_stream_feed(
                        bytes@,
                        i as int,
                        k as int,
                        enc_bool(true),
                        enc_ticket_message(x) + rest,
                    );
                    lemma_enc_bool_prefix(
                        true,
                        true,
                        bytes@.skip(k as int),
                        enc_ticket_message(x) + rest,
                    );
                },
            }
        }
    }
    match read_ticket_message(bytes, k) {
        Some((m, j)) => {
            proof {
                assert(enc_opt_tm(Some(m)) =~= bytes@.subrange(i as int, j as int));
            }
            Some((Some(m), j))
        },
        None => None,
    }
}

/// Read a stored ticket back.
#[verifier::spinoff_prover]
#[verifier::rlimit(100)]
pub fn read_ticket(bytes: &Vec<u8>, i: usize) -> (r: Option<(crate::ticket::Ticket, usize)>)
    ensures
        r matches Some((v, j)) ==> i <= j <= bytes@.len() && bytes@.subrange(i as int, j as int)
            == enc_ticket(v) && encodable_ticket(v),
        forall|v: crate::ticket::Ticket, rest: Seq<u8>|
            encodable_ticket(v) && #[trigger] stream_opens(bytes@, i as int, enc_ticket(v), rest)
                ==> r is Some,
    decreases bytes@.len() - i, 2int,
{
    proof {
        assert forall|v: crate::ticket::Ticket, rest: Seq<u8>|
            encodable_ticket(v) && #[trigger] stream_opens(bytes@, i as int, enc_ticket(v), rest)
            implies stream_opens(bytes@, i as int, enc_ticket_message(v.request.ticket_message), enc_str(v.request.ticket_id) + (enc_opt_tm(v.response) + (enc_opt_str(v.destination_id) + (enc_u64(v.start_time) + (enc_opt_u64(v.stop_time) + (rest)))))) by {
            assert(enc_ticket(v) + rest =~= enc_ticket_message(v.request.ticket_message) + (enc_str(v.request.ticket_id) + (enc_opt_tm(v.response) + (enc_opt_str(v.destination_id) + (enc_u64(v.start_time) + (enc_opt_u64(v.stop_time) + (rest)))))));
        }
    }
    let (ticket_message, k0) = match read_ticket_message(bytes, i) {
        Some(p) => p,
        None => { return None; },
    };
    proof {
        assert forall|v: crate::ticket::Ticket, rest: Seq<u8>|
            encodable_ticket(v) && #[trigger] stream_opens(bytes@, i as int, enc_ticket(v), rest)
            implies stream_opens(bytes@, k0 as int, enc_str(v.request.ticket_id), enc_opt_tm(v.response) + (enc_opt_str(v.destination_id) + (enc_u64(v.start_time) + (enc_opt_u64(v.stop_time) + (rest))))) by {
            lemma_stream_feed(bytes@, i as int, k0 as int, enc_ticket_message(v.request.ticket_message), enc_str(v.request.ticket_id) + (enc_opt_tm(v.response) + (enc_opt_str(v.destination_id) + (enc_u64(v.start_time) + (enc_opt_u64(v.stop_time) + (rest))))));
            lemma_enc_ticket_message_prefix(ticket_message, v.request.ticket_message, bytes@.skip(k0 as int), enc_str(v.request.ticket_id) + (enc_opt_tm(v.response) + (enc_opt_str(v.destination_id) + (enc_u64(v.start_time) + (enc_opt_u64(v.stop_time) + (rest))))));
        }
    }
    let (ticket_id, k1) = match read_str(bytes, k0) {
        Some(p) => p,
        None => { return None; },
    };
    proof {
        assert forall|v: crate::ticket::Ticket, rest: Seq<u8>|
            encodable_ticket(v) && #[trigger] stream_opens(bytes@, i as int, enc_ticket(v), rest)
            implies stream_opens(bytes@, k1 as int, enc_opt_tm(v.response), enc_opt_str(v.destination_id) + (enc_u64(v.start_time) + (enc_opt_u64(v.stop_time) + (rest)))) by {
            lemma_stream_feed(bytes@, k0 as int, k1 as int, enc_str(v.request.ticket_id), enc_opt_tm(v.response) + (enc_opt_str(v.destination_id) + (enc_u64(v.start_time) + (enc_opt_u64(v.stop_time) + (rest)))));
            lemma_enc_str_prefix(ticket_id, v.request.ticket_id, bytes@.skip(k1 as int), enc_opt_tm(v.response) + (enc_opt_str(v.destination_id) + (enc_u64(v.start_time) + (enc_opt_u64(v.stop_time) + (rest)))));
        }
    }
    let (response, k2) = match read_opt_tm(bytes, k1) {
        Some(p) => p,
        None => { return None; },
    };
    proof {
        assert forall|v: crate::ticket::Ticket, rest: Seq<u8>|
            encodable_ticket(v) && #[trigger] stream_opens(bytes@, i as int, enc_ticket(v), rest)
            implies stream_opens(bytes@, k2 as int, enc_opt_str(v.destination_id), enc_u64(v.start_time) + (enc_opt_u64(v.stop_time) + (rest))) by {
            lemma_stream_feed(bytes@, k1 as int, k2 as int, enc_opt_tm(v.response), enc_opt_str(v.destination_id) + (enc_u64(v.start_time) + (enc_opt_u64(v.stop_time) + (rest))));
            lemma_enc_opt_tm_prefix(response, v.response, bytes@.skip(k2 as int), enc_opt_str(v.destination_id) + (enc_u64(v.start_time) + (enc_opt_u64(v.stop_time) + (rest))));
        }
    }
    let (destination_id, k3) = match read_opt_str(bytes, k2) {
        Some(p) => p,
        None => { return None; },
    };
    proof {
        assert forall|v: crate::ticket::Ticket, rest: Seq<u8>|
            encodable_ticket(v) && #[trigger] stream_opens(bytes@, i as int, enc_ticket(v), rest)
            implies stream_opens(bytes@, k3 as int, enc_u64(v.start_time), enc_opt_u64(v.stop_time) + (rest)) by {
            lemma_stream_feed(bytes@, k2 as int, k3 as int, enc_opt_str(v.destination_id), enc_u64(v.start_time) + (enc_opt_u64(v.stop_time) + (rest)));
            lemma_enc_opt_str_prefix(destination_id, v.destination_id, bytes@.skip(k3 as int), enc_u64(v.start_time) + (enc_opt_u64(v.stop_time) + (rest)));
        }
    }
    let (start_time, k4) = match read_u64(bytes, k3) {
        Some(p) => p,
        None => { return None; },
    };
    proof {
        assert forall|v: crate::ticket::Ticket, rest: Seq<u8>|
            encodable_ticket(v) && #[trigger] stream_opens(bytes@, i as int, enc_ticket(v), rest)
            implies stream_opens(bytes@, k4 as int, enc_opt_u64(v.stop_time), rest) by {
            lemma_auto_spec_u64_to_from_le_bytes();
            lemma_stream_feed(bytes@, k3 as int, k4 as int, enc_u64(v.start_time), enc_opt_u64(v.stop_time) + (rest));
            lemma_concat_parts(enc_u64(start_time), bytes@.skip(k4 as int), enc_u64(v.start_time), enc_opt_u64(v.stop_time) + (rest));
        }
    }
    let (stop_time, k5) = match read_opt_u64(bytes, k4) {
        Some(p) => p,
        None => { return None; },
    };
    let v = crate::ticket::Ticket {
        request: crate::ticket::TicketRequest { ticket_message, ticket_id },
        response,
        destination_id,
        start_time,
        stop_time,
    };
    proof {
        assert(bytes@.subrange(i as int, k5 as int) =~= enc_ticket(v));
    }
    Some((v, k5))
}


/// Two ticket-payload encodings that open the same stream carry deeply
/// equal payloads.
#[verifier::spinoff_prover]
#[verifier::rlimit(100)]
pub proof fn lemma_enc_ticket_message_prefix(
    a: crate::ticket::TicketMessage,
    b: crate::ticket::TicketMessage,
    ra: Seq<u8>,
    rb: Seq<u8>,
)
    requires
        enc_ticket_message(a) + ra == enc_ticket_message(b) + rb,
        encodable_ticket_message(a),
        encodable_ticket_message(b),
    ensures
        enc_ticket_message(a) == enc_ticket_message(b),
        ra == rb,
        crate::ticket::ticket_message_eqv(a, b),
    decreases crate::ticket::ticket_message_size(a),
{
    assert((enc_ticket_message(a) + ra)[0] == enc_ticket_message(a)[0]);
    assert((enc_ticket_message(b) + rb)[0] == enc_ticket_message(b)[0]);
    assert(enc_ticket_message(a)[0] == enc_ticket_message(b)[0]);
    match (a, b) {
        (crate::ticket::TicketMessage::Test, crate::ticket::TicketMessage::Test) => {
            lemma_concat_parts(seq![0u8], ra, seq![0u8], rb);
        },
        (
            crate::ticket::TicketMessage::BeginTrace(x),
            crate::ticket::TicketMessage::BeginTrace(y),
        ) => {
            lemma_tagged_trace_prefix(1u8, x, y, ra, rb);
            assert(enc_ticket_message(a) =~= enc_ticket_message(b));
        },
        (
            crate::ticket::TicketMessage::DrainTrace(x),
            crate::ticket::TicketMessage::DrainTrace(y),
        ) => {
            lemma_tagged_trace_prefix(2u8, x, y, ra, rb);
            assert(enc_ticket_message(a) =~= enc_ticket_message(b));
        },
        (
            crate::ticket::TicketMessage::PollTrace(x),
            crate::ticket::TicketMessage::PollTrace(y),
        ) => {
            lemma_tagged_trace_prefix(3u8, x, y, ra, rb);
            assert(enc_ticket_message(a) =~= enc_ticket_message(b));
        },
        (
            crate::ticket::TicketMessage::RouteQuery(x),
            crate::ticket::TicketMessage::RouteQuery(y),
        ) => {
            lemma_tag_strip(4u8, enc_route_query(x), enc_route_query(y), ra, rb);
            lemma_enc_route_query_prefix(x, y, ra, rb);
            assert(enc_ticket_message(a) =~= enc_ticket_message(b));
        },
        (
            crate::ticket::TicketMessage::PeerQuery(x),
            crate::ticket::TicketMessage::PeerQuery(y),
        ) => {
            assert((seq![5u8] + enc_opt_peer_seq(x.peers)) + ra =~= seq![5u8] + (enc_opt_peer_seq(
                x.peers,
            ) + ra));
            assert((seq![5u8] + enc_opt_peer_seq(y.peers)) + rb =~= seq![5u8] + (enc_opt_peer_seq(
                y.peers,
            ) + rb));
            lemma_concat_parts(
                seq![5u8],
                enc_opt_peer_seq(x.peers) + ra,
                seq![5u8],
                enc_opt_peer_seq(y.peers) + rb,
            );
            lemma_enc_opt_peer_seq_prefix(x.peers, y.peers, ra, rb);
            assert(enc_ticket_message(a) =~= enc_ticket_message(b));
        },
        (
            crate::ticket::TicketMessage::TicketQuery(x),
            crate::ticket::TicketMessage::TicketQuery(y),
        ) => {
            lemma_tag_strip(6u8, enc_opt_ticket_list(x.tickets), enc_opt_ticket_list(y.tickets), ra, rb);
            lemma_enc_opt_ticket_list_prefix(x.tickets, y.tickets, ra, rb);
            assert(enc_ticket_message(a) =~= enc_ticket_message(b));
        },
        (
            crate::ticket::TicketMessage::BeginBroadcast(x),
            crate::ticket::TicketMessage::BeginBroadcast(y),
        ) => {
            lemma_tagged_broadcast_prefix(7u8, x, y, ra, rb);
            assert(enc_ticket_message(a) =~= enc_ticket_message(b));
        },
        (
            crate::ticket::TicketMessage::DrainBroadcast(x),
            crate::ticket::TicketMessage::DrainBroadcast(y),
        ) => {
            lemma_tagged_broadcast_prefix(8u8, x, y, ra, rb);
            assert(enc_ticket_message(a) =~= enc_ticket_message(b));
        },
        (
            crate::ticket::TicketMessage::PollBroadcast(x),
            crate::ticket::TicketMessage::PollBroadcast(y),
        ) => {
            lemma_tagged_broadcast_prefix(9u8, x, y, ra, rb);
            assert(enc_ticket_message(a) =~= enc_ticket_message(b));
        },
        _ => {
            assert(false);
        },
    }
}

/// Two equal-length ticket trains that open the same stream carry deeply
/// equal tickets.
pub proof fn lemma_enc_ticket_cat_prefix(
    a: Seq<crate::ticket::Ticket>,
    b: Seq<crate::ticket::Ticket>,
    ra: Seq<u8>,
    rb: Seq<u8>,
)
    requires
        a.len() == b.len(),
        enc_ticket_cat(a) + ra == enc_ticket_cat(b) + rb,
        encodable_ticket_cat(a),
        encodable_ticket_cat(b),
    ensures
        enc_ticket_cat(a) == enc_ticket_cat(b),
        ra == rb,
        crate::ticket::ticket_seq_eqv(a, b),
    decreases crate::ticket::ticket_seq_size(a),
{
    if a.len() == 0 {
        assert(enc_ticket_cat(a) + ra =~= ra);
        assert(enc_ticket_cat(b) + rb =~= rb);
    } else {
        assert((enc_ticket(a[0]) + enc_ticket_cat(a.drop_first())) + ra =~= enc_ticket(a[0]) + (
        enc_ticket_cat(a.drop_first()) + ra));
        assert((enc_ticket(b[0]) + enc_ticket_cat(b.drop_first())) + rb =~= enc_ticket(b[0]) + (
        enc_ticket_cat(b.drop_first()) + rb));
        lemma_enc_ticket_prefix(
            a[0],
            b[0],
            enc_ticket_cat(a.drop_first()) + ra,
            enc_ticket_cat(b.drop_first()) + rb,
        );
        lemma_enc_ticket_cat_prefix(a.drop_first(), b.drop_first(), ra, rb);
        assert(enc_ticket_cat(a) =~= enc_ticket_cat(b));
    }
}


/// Strip a stored ticket's trailing fields from two equal streams.
pub proof fn lemma_ticket_tail_prefix(
    adest: Option<String>,
    bdest: Option<String>,
    ast: u64,
    bst: u64,
    asp: Option<u64>,
    bsp: Option<u64>,
    ra: Seq<u8>,
    rb: Seq<u8>,
)
    requires
        enc_opt_str(adest) + (enc_u64(ast) + (enc_opt_u64(asp) + ra)) == enc_opt_str(bdest) + (
        enc_u64(bst) + (enc_opt_u64(bsp) + rb)),
        encodable_opt_str(adest),
        encodable_opt_str(bdest),
    ensures
        enc_opt_str(adest) == enc_opt_str(bdest),
        enc_u64(ast) == enc_u64(bst),
        enc_opt_u64(asp) == enc_opt_u64(bsp),
        ra == rb,
        crate::seq_util::opt_str_eqv(adest, bdest),
        ast == bst,
        asp == bsp,
{
    lemma_enc_opt_str_prefix(
        adest,
        bdest,
        enc_u64(ast) + (enc_opt_u64(asp) + ra),
        enc_u64(bst) + (enc_opt_u64(bsp) + rb),
    );
    lemma_auto_spec_u64_to_from_le_bytes();
    lemma_concat_parts(enc_u64(ast), enc_opt_u64(asp) + ra, enc_u64(bst), enc_opt_u64(bsp) + rb);
    assert(spec_u64_from_le_bytes(enc_u64(ast)) == spec_u64_from_le_bytes(enc_u64(bst)));
    lemma_enc_opt_u64_prefix(asp, bsp, ra, rb);
}

/// Two stored-ticket encodings that open the same stream carry deeply
/// equal tickets.
#[verifier::spinoff_prover]
#[verifier::rlimit(100)]
pub proof fn lemma_enc_ticket_prefix(
    a: crate::ticket::Ticket,
    b: crate::ticket::Ticket,
    ra: Seq<u8>,
    rb: Seq<u8>,
)
    requires
        enc_ticket(a) + ra == enc_ticket(b) + rb,
        encodable_ticket(a),
        encodable_ticket(b),
    ensures
        enc_ticket(a) == enc_ticket(b),
        ra == rb,
        crate::ticket::ticket_eqv(a, b),
    decreases crate::ticket::ticket_size(a),
{
    assert(enc_ticket(a) + ra =~= enc_ticket_message(a.request.ticket_message) + (enc_str(
        a.request.ticket_id,
    ) + (enc_opt_tm(a.response) + (enc_opt_str(a.destination_id) + (enc_u64(a.start_time) + (
    enc_opt_u64(a.stop_time) + ra))))));
    assert(enc_ticket(b) + rb =~= enc_ticket_message(b.request.ticket_message) + (enc_str(
        b.request.ticket_id,
    ) + (enc_opt_tm(b.response) + (enc_opt_str(b.destination_id) + (enc_u64(b.start_time) + (
    enc_opt_u64(b.stop_time) + rb))))));
    lemma_enc_ticket_message_prefix(
        a.request.ticket_message,
        b.request.ticket_message,
        enc_str(a.request.ticket_id) + (enc_opt_tm(a.response) + (enc_opt_str(a.destination_id) + (
        enc_u64(a.start_time) + (enc_opt_u64(a.stop_time) + ra)))),
        enc_str(b.request.ticket_id) + (enc_opt_tm(b.response) + (enc_opt_str(b.destination_id) + (
        enc_u64(b.start_time) + (enc_opt_u64(b.stop_time) + rb)))),
    );
    lemma_enc_str_prefix(
        a.request.ticket_id,
        b.request.ticket_id,
        enc_opt_tm(a.response) + (enc_opt_str(a.destination_id) + (enc_u64(a.start_time) + (
        enc_opt_u64(a.stop_time) + ra))),
        enc_opt_tm(b.response) + (enc_opt_str(b.destination_id) + (enc_u64(b.start_time) + (
        enc_opt_u64(b.stop_time) + rb))),
    );
    lemma_enc_opt_tm_prefix(
        a.response,
        b.response,
        enc_opt_str(a.destination_id) + (enc_u64(a.start_time) + (enc_opt_u64(a.stop_time) + ra)),
        enc_opt_str(b.destination_id) + (enc_u64(b.start_time) + (enc_opt_u64(b.stop_time) + rb)),
    );
        lemma_ticket_tail_prefix(
        a.destination_id,
        b.destination_id,
        a.start_time,
        b.start_time,
        a.stop_time,
        b.stop_time,
        ra,
        rb,
    );
    assert(enc_ticket(a) =~= enc_ticket(b));
}


/// Two optional-ticket-list encodings that open the same stream agree.
#[verifier::spinoff_prover]
#[verifier::rlimit(100)]
pub proof fn lemma_enc_opt_ticket_list_prefix(
    a: Option<Vec<crate::ticket::Ticket>>,
    b: Option<Vec<crate::ticket::Ticket>>,
    ra: Seq<u8>,
    rb: Seq<u8>,
)
    requires
        enc_opt_ticket_list(a) + ra == enc_opt_ticket_list(b) + rb,
        encodable_opt_ticket_list(a),
        encodable_opt_ticket_list(b),
    ensures
        enc_opt_ticket_list(a) == enc_opt_ticket_list(b),
        ra == rb,
        match (a, b) {
            (None, None) => true,
            (Some(x), Some(y)) => crate::ticket::ticket_seq_eqv(x@, y@),
            _ => false,
        },
    decreases (match a {
        None => 0nat,
        Some(x) => 1 + crate::ticket::ticket_seq_size(x@),
    }),
{
    match (a, b) {
        (None, None) => {
            lemma_concat_parts(seq![0u8], ra, seq![0u8], rb);
        },
        (Some(x), Some(y)) => {
            lemma_auto_spec_u64_to_from_le_bytes();
            assert((seq![1u8] + enc_u64(x@.len() as u64) + enc_ticket_cat(x@)) + ra =~= seq![1u8]
                + (enc_u64(x@.len() as u64) + (enc_ticket_cat(x@) + ra)));
            assert((seq![1u8] + enc_u64(y@.len() as u64) + enc_ticket_cat(y@)) + rb =~= seq![1u8]
                + (enc_u64(y@.len() as u64) + (enc_ticket_cat(y@) + rb)));
            lemma_concat_parts(
                seq![1u8],
                enc_u64(x@.len() as u64) + (enc_ticket_cat(x@) + ra),
                seq![1u8],
                enc_u64(y@.len() as u64) + (enc_ticket_cat(y@) + rb),
            );
            lemma_concat_parts(
                enc_u64(x@.len() as u64),
                enc_ticket_cat(x@) + ra,
                enc_u64(y@.len() as u64),
                enc_ticket_cat(y@) + rb,
            );
            assert(spec_u64_from_le_bytes(enc_u64(x@.len() as u64)) == spec_u64_from_le_bytes(
                enc_u64(y@.len() as u64),
            ));
            assert(x@.len() == y@.len());
            lemma_enc_ticket_cat_prefix(x@, y@, ra, rb);
            assert(enc_opt_ticket_list(a) =~= enc_opt_ticket_list(b));
        },
        (None, Some(y)) => {
            assert((enc_opt_ticket_list(a) + ra)[0] == 0u8);
            assert((seq![1u8] + enc_u64(y@.len() as u64) + enc_ticket_cat(y@)) + rb =~= seq![1u8]
                + (enc_u64(y@.len() as u64) + (enc_ticket_cat(y@) + rb)));
            assert((enc_opt_ticket_list(b) + rb)[0] == 1u8);
        },
        (Some(x), None) => {
            assert((seq![1u8] + enc_u64(x@.len() as u64) + enc_ticket_cat(x@)) + ra =~= seq![1u8]
                + (enc_u64(x@.len() as u64) + (enc_ticket_cat(x@) + ra)));
            assert((enc_opt_ticket_list(a) + ra)[0] == 1u8);
            assert((enc_opt_ticket_list(b) + rb)[0] == 0u8);
        },
    }
}

/// Two optional-ticket-payload encodings that open the same stream agree.
pub proof fn lemma_enc_opt_tm_prefix(
    a: Option<crate::ticket::TicketMessage>,
    b: Option<crate::ticket::TicketMessage>,
    ra: Seq<u8>,
    rb: Seq<u8>,
)
    requires
        enc_opt_tm(a) + ra == enc_opt_tm(b) + rb,
        encodable_opt_tm(a),
        encodable_opt_tm(b),
    ensures
        enc_opt_tm(a) == enc_opt_tm(b),
        ra == rb,
        match (a, b) {
            (None, None) => true,
            (Some(x), Some(y)) => crate::ticket::ticket_message_eqv(x, y),
            _ => false,
        },
    decreases (match a {
        None => 0nat,
        Some(x) => 1 + crate::ticket::ticket_message_size(x),
    }),
{
    match (a, b) {
        (None, None) => {
            lemma_concat_parts(seq![0u8], ra, seq![0u8], rb);
        },
        (Some(x), Some(y)) => {
            lemma_tag_strip(1u8, enc_ticket_message(x), enc_ticket_message(y), ra, rb);
            lemma_enc_ticket_message_prefix(x, y, ra, rb);
            assert(enc_opt_tm(a) =~= enc_opt_tm(b));
        },
        (None, Some(y)) => {
            assert((enc_opt_tm(a) + ra)[0] == 0u8);
            assert((seq![1u8] + enc_ticket_message(y)) + rb =~= seq![1u8] + (enc_ticket_message(y)
                + rb));
            assert((enc_opt_tm(b) + rb)[0] == 1u8);
        },
        (Some(x), None) => {
            assert((seq![1u8] + enc_ticket_message(x)) + ra =~= seq![1u8] + (enc_ticket_message(x)
                + ra));
            assert((enc_opt_tm(a) + ra)[0] == 1u8);
            assert((enc_opt_tm(b) + rb)[0] == 0u8);
        },
    }
}


/// Structural size of a message, the measure for recursion through
/// backlog payloads.
pub open spec fn message_size(m: crate::message::Message) -> nat
    decreases m,
{
    match m {
        crate::message::Message::BacklogResponse(br) => 2 + mc_cat_size(br.message_collections@),
        _ => 1,
    }
}

/// Structural size of a message train.
pub open spec fn message_cat_size(s: Seq<crate::message::Message>) -> nat
    decreases s,
{
    if s.len() == 0 {
        0
    } else {
        1 + message_size(s[0]) + message_cat_size(s.drop_first())
    }
}

/// Structural size of a batch.
pub open spec fn mc_size(mc: crate::message::MessageCollection) -> nat
    decreases mc,
{
    2 + message_cat_size(mc.messages@)
}

/// Structural size of a batch train.
pub open spec fn mc_cat_size(s: Seq<crate::message::MessageCollection>) -> nat
    decreases s,
{
    if s.len() == 0 {
        0
    } else {
        1 + mc_size(s[0]) + mc_cat_size(s.drop_first())
    }
}

/// Every message of a train weighs less than the train.
pub proof fn lemma_message_cat_size_element(s: Seq<crate::message::Message>, i: int)
    requires
        0 <= i < s.len(),
    ensures
        message_size(s[i]) < 1 + message_cat_size(s),
    decreases s.len(),
{
    if i > 0 {
        lemma_message_cat_size_element(s.drop_first(), i - 1);
        assert(s.drop_first()[i - 1] == s[i]);
    }
}

/// Every batch of a train weighs less than the train.
pub proof fn lemma_mc_cat_size_element(s: Seq<crate::message::MessageCollection>, i: int)
    requires
        0 <= i < s.len(),
    ensures
        mc_size(s[i]) < 1 + mc_cat_size(s),
    decreases s.len(),
{
    if i > 0 {
        lemma_mc_cat_size_element(s.drop_first(), i - 1);
        assert(s.drop_first()[i - 1] == s[i]);
    }
}

/// The wire form of a message: a variant tag, then the payload.
pub open spec fn enc_message(m: crate::message::Message) -> Seq<u8>
    decreases m,
{
    match m {
        crate::message::Message::RouteAdvertisement(adv) => seq![0u8] + enc_route_seq(adv.routes@),
        crate::message::Message::RouteRecall(rr) => seq![1u8] + enc_str(rr.destination_id),
        crate::message::Message::BacklogResponse(br) => seq![2u8] + enc_u64(
            br.message_collections@.len() as u64,
        ) + enc_mc_cat(br.message_collections@),
        crate::message::Message::BacklogRequest(q) => seq![3u8] + enc_str(q.gateway_id),
        crate::message::Message::Ping => seq![4u8],
        crate::message::Message::Pong => seq![5u8],
        crate::message::Message::TraceRequest(t) => seq![6u8] + enc_u64(t.hop_count as u64)
            + enc_str(t.request_id),
        crate::message::Message::TraceResponse(t) => seq![7u8] + enc_u64(t.hop_count as u64)
            + enc_str(t.request_id),
        crate::message::Message::TraceEvent(e) => seq![8u8] + enc_trace_event(e),
        crate::message::Message::TicketRequest(tq) => seq![9u8] + enc_ticket_message(
            tq.ticket_message,
        ) + enc_str(tq.ticket_id),
        crate::message::Message::TicketResponse(tq) => seq![10u8] + enc_ticket_message(
            tq.ticket_message,
        ) + enc_str(tq.ticket_id),
        crate::message::Message::BroadcastRequest(x) => seq![11u8] + enc_broadcast_request(x),
        crate::message::Message::BroadcastResponse(x) => seq![12u8] + enc_broadcast_response(x),
    }
}

/// The wire forms of messages, one after the other.
pub open spec fn enc_message_cat(s: Seq<crate::message::Message>) -> Seq<u8>
    decreases s,
{
    if s.len() == 0 {
        Seq::empty()
    } else {
        enc_message(s[0]) + enc_message_cat(s.drop_first())
    }
}

/// The wire form of a batch: its messages, then its addressing.
pub open spec fn enc_collection(mc: crate::message::MessageCollection) -> Seq<u8>
    decreases mc,
{
    enc_u64(mc.messages@.len() as u64) + enc_message_cat(mc.messages@) + enc_str(mc.origin_id)
        + enc_opt_str(mc.destination_id)
}

/// The wire forms of batches, one after the other.
pub open spec fn enc_mc_cat(s: Seq<crate::message::MessageCollection>) -> Seq<u8>
    decreases s,
{
    if s.len() == 0 {
        Seq::empty()
    } else {
        enc_collection(s[0]) + enc_mc_cat(s.drop_first())
    }
}

/// A message that fits the wire.
pub open spec fn encodable_message(m: crate::message::Message) -> bool
    decreases m,
{
    match m {
        crate::message::Message::RouteAdvertisement(adv) => encodable_route_seq(adv.routes@),
        crate::message::Message::RouteRecall(rr) => encodable_str(rr.destination_id),
        crate::message::Message::BacklogResponse(br) => br.message_collections@.len()
            < 0x1_0000_0000_0000_0000 && encodable_mc_cat(br.message_collections@),
        crate::message::Message::BacklogRequest(q) => encodable_str(q.gateway_id),
        crate::message::Message::Ping => true,
        crate::message::Message::Pong => true,
        crate::message::Message::TraceRequest(t) => encodable_str(t.request_id),
        crate::message::Message::TraceResponse(t) => encodable_str(t.request_id),
        crate::message::Message::TraceEvent(e) => encodable_trace_event(e),
        crate::message::Message::TicketRequest(tq) => encodable_ticket_message(tq.ticket_message)
            && encodable_str(tq.ticket_id),
        crate::message::Message::TicketResponse(tq) => encodable_ticket_message(tq.ticket_message)
            && encodable_str(tq.ticket_id),
        crate::message::Message::BroadcastRequest(x) => encodable_broadcast_request(x),
        crate::message::Message::BroadcastResponse(x) => encodable_broadcast_response(x),
    }
}

/// Messages that fit the wire, one after the other.
pub open spec fn encodable_message_cat(s: Seq<crate::message::Message>) -> bool
    decreases s,
{
    if s.len() == 0 {
        true
    } else {
        encodable_message(s[0]) && encodable_message_cat(s.drop_first())
    }
}

/// A batch that fits the wire.
pub open spec fn encodable_collection(mc: crate::message::MessageCollection) -> bool
    decreases mc,
{
    mc.messages@.len() < 0x1_0000_0000_0000_0000 && encodable_message_cat(mc.messages@)
        && encodable_str(mc.origin_id) && encodable_opt_str(mc.destination_id)
}

/// Batches that fit the wire, one after the other.
pub open spec fn encodable_mc_cat(s: Seq<crate::message::MessageCollection>) -> bool
    decreases s,
{
    if s.len() == 0 {
        true
    } else {
        encodable_collection(s[0]) && encodable_mc_cat(s.drop_first())
    }
}

/// One more message extends the train at the end.
pub proof fn lemma_enc_message_cat_snoc(s: Seq<crate::message::Message>, x: crate::message::Message)
    ensures
        enc_message_cat(s.push(x)) == enc_message_cat(s) + enc_message(x),
        encodable_message_cat(s) && encodable_message(x) ==> encodable_message_cat(s.push(x)),
    decreases s.len(),
{
    if s.len() == 0 {
        assert(s.push(x).drop_first() =~= Seq::<crate::message::Message>::empty());
        assert(s.push(x)[0] == x);
        assert(enc_message_cat(s.push(x)) == enc_message(x) + enc_message_cat(
            s.push(x).drop_first(),
        ));
        assert(encodable_message_cat(s.push(x)) == (encodable_message(x)
            && encodable_message_cat(s.push(x).drop_first())));
        assert(enc_message_cat(s.push(x)) =~= enc_message_cat(s) + enc_message(x));
    } else {
        assert(s.push(x).drop_first() =~= s.drop_first().push(x));
        assert(s.push(x)[0] == s[0]);
        lemma_enc_message_cat_snoc(s.drop_first(), x);
        assert(enc_message_cat(s.push(x)) == enc_message(s[0]) + enc_message_cat(
            s.push(x).drop_first(),
        ));
        assert(encodable_message_cat(s.push(x)) == (encodable_message(s[0])
            && encodable_message_cat(s.push(x).drop_first())));
        assert(enc_message_cat(s.push(x)) =~= enc_message_cat(s) + enc_message(x));
    }
}

/// One more batch extends the train at the end.
pub proof fn lemma_enc_mc_cat_snoc(
    s: Seq<crate::message::MessageCollection>,
    x: crate::message::MessageCollection,
)
    ensures
        enc_mc_cat(s.push(x)) == enc_mc_cat(s) + enc_collection(x),
        encodable_mc_cat(s) && encodable_collection(x) ==> encodable_mc_cat(s.push(x)),
    decreases s.len(),
{
    if s.len() == 0 {
        assert(s.push(x).drop_first() =~= Seq::<crate::message::MessageCollection>::empty());
        assert(s.push(x)[0] == x);
        assert(enc_mc_cat(s.push(x)) == enc_collection(x) + enc_mc_cat(s.push(x).drop_first()));
        assert(encodable_mc_cat(s.push(x)) == (encodable_collection(x) && encodable_mc_cat(
            s.push(x).drop_first(),
        )));
        assert(enc_mc_cat(s.push(x)) =~= enc_mc_cat(s) + enc_collection(x));
    } else {
        assert(s.push(x).drop_first() =~= s.drop_first().push(x));
        assert(s.push(x)[0] == s[0]);
        lemma_enc_mc_cat_snoc(s.drop_first(), x);
        assert(enc_mc_cat(s.push(x)) == enc_collection(s[0]) + enc_mc_cat(
            s.push(x).drop_first(),
        ));
        assert(encodable_mc_cat(s.push(x)) == (encodable_collection(s[0]) && encodable_mc_cat(
            s.push(x).drop_first(),
        )));
        assert(enc_mc_cat(s.push(x)) =~= enc_mc_cat(s) + enc_collection(x));
    }
}

/// Append the wire form of a message.
#[verifier::rlimit(100)]
pub fn write_message(m: &crate::message::Message, buf: &mut Vec<u8>)
    ensures
        final(buf)@ == old(buf)@ + enc_message(*m),
        encodable_message(*m),
    decreases message_size(*m),
{
    match m {
        crate::message::Message::RouteAdvertisement(adv) => {
            buf.push(0u8);
            write_route_seq(&adv.routes, buf);
            proof {
                assert(final(buf)@ =~= old(buf)@ + enc_message(*m));
            }
        },
        crate::message::Message::RouteRecall(rr) => {
            buf.push(1u8);
            write_str(&rr.destination_id, buf);
            proof {
                assert(final(buf)@ =~= old(buf)@ + enc_message(*m));
            }
        },
        crate::message::Message::BacklogResponse(br) => {
            buf.push(2u8);
            write_u64(br.message_collections.len() as u64, buf);
            let ghost base = buf@;
            let mut i: usize = 0;
            while i < br.message_collections.len()
                invariant
                    0 <= i <= br.message_collections@.len(),
                    buf@ == base + enc_mc_cat(br.message_collections@.take(i as int)),
                    encodable_mc_cat(br.message_collections@.take(i as int)),
                    message_size(*m) == 2 + mc_cat_size(br.message_collections@),
                decreases br.message_collections@.len() - i,
            {
                proof {
                    lemma_mc_cat_size_element(br.message_collections@, i as int);
                }
                write_collection(&br.message_collections[i], buf);
                proof {
                    assert(br.message_collections@.take(i + 1 as int)
                        =~= br.message_collections@.take(i as int).push(
                        br.message_collections@[i as int],
                    ));
                    lemma_enc_mc_cat_snoc(
                        br.message_collections@.take(i as int),
                        br.message_collections@[i as int],
                    );
                    assert(buf@ =~= base + enc_mc_cat(br.message_collections@.take(i + 1 as int)));
                }
                i = i + 1;
            }
            proof {
                assert(br.message_collections@.take(br.message_collections@.len() as int)
                    =~= br.message_collections@);
                assert(final(buf)@ =~= old(buf)@ + enc_message(*m));
            }
        },
        crate::message::Message::BacklogRequest(q) => {
            buf.push(3u8);
            write_str(&q.gateway_id, buf);
            proof {
                assert(final(buf)@ =~= old(buf)@ + enc_message(*m));
            }
        },
        crate::message::Message::Ping => {
            buf.push(4u8);
            proof {
                assert(final(buf)@ =~= old(buf)@ + enc_message(*m));
            }
        },
        crate::message::Message::Pong => {
            buf.push(5u8);
            proof {
                assert(final(buf)@ =~= old(buf)@ + enc_message(*m));
            }
        },
        crate::message::Message::TraceRequest(t) => {
            buf.push(6u8);
            write_u64(t.hop_count as u64, buf);
            write_str(&t.request_id, buf);
            proof {
                assert(final(buf)@ =~= old(buf)@ + enc_message(*m));
            }
        },
        crate::message::Message::TraceResponse(t) => {
            buf.push(7u8);
            write_u64(t.hop_count as u64, buf);
            write_str(&t.request_id, buf);
            proof {
                assert(final(buf)@ =~= old(buf)@ + enc_message(*m));
            }
        },
        crate::message::Message::TraceEvent(e) => {
            buf.push(8u8);
            write_trace_event(e, buf);
            proof {
                assert(final(buf)@ =~= old(buf)@ + enc_message(*m));
            }
        },
        crate::message::Message::TicketRequest(tq) => {
            buf.push(9u8);
            write_ticket_message(&tq.ticket_message, buf);
            write_str(&tq.ticket_id, buf);
            proof {
                assert(final(buf)@ =~= old(buf)@ + enc_message(*m));
            }
        },
        crate::message::Message::TicketResponse(tq) => {
            buf.push(10u8);
            write_ticket_message(&tq.ticket_message, buf);
            write_str(&tq.ticket_id, buf);
            proof {
                assert(final(buf)@ =~= old(buf)@ + enc_message(*m));
            }
        },
        crate::message::Message::BroadcastRequest(x) => {
            buf.push(11u8);
            write_broadcast_request(x, buf);
            proof {
                assert(final(buf)@ =~= old(buf)@ + enc_message(*m));
            }
        },
        crate::message::Message::BroadcastResponse(x) => {
            buf.push(12u8);
            write_broadcast_response(x, buf);
            proof {
                assert(final(buf)@ =~= old(buf)@ + enc_message(*m));
            }
        },
    }
}

/// Append the wire form of a batch.
#[verifier::rlimit(100)]
pub fn write_collection(mc: &crate::message::MessageCollection, buf: &mut Vec<u8>)
    ensures
        final(buf)@ == old(buf)@ + enc_collection(*mc),
        encodable_collection(*mc),
    decreases mc_size(*mc),
{
    write_u64(mc.messages.len() as u64, buf);
    let ghost base = buf@;
    let mut i: usize = 0;
    while i < mc.messages.len()
        invariant
            0 <= i <= mc.messages@.len(),
            buf@ == base + enc_message_cat(mc.messages@.take(i as int)),
            encodable_message_cat(mc.messages@.take(i as int)),
            mc_size(*mc) == 2 + message_cat_size(mc.messages@),
        decreases mc.messages@.len() - i,
    {
        proof {
            lemma_message_cat_size_element(mc.messages@, i as int);
        }
        write_message(&mc.messages[i], buf);
        proof {
            assert(mc.messages@.take(i + 1 as int) =~= mc.messages@.take(i as int).push(
                mc.messages@[i as int],
            ));
            lemma_enc_message_cat_snoc(mc.messages@.take(i as int), mc.messages@[i as int]);
            assert(buf@ =~= base + enc_message_cat(mc.messages@.take(i + 1 as int)));
        }
        i = i + 1;
    }
    proof {
        assert(mc.messages@.take(mc.messages@.len() as int) =~= mc.messages@);
    }
    write_str(&mc.origin_id, buf);
    write_opt_str(&mc.destination_id, buf);
    proof {
        assert(final(buf)@ =~= old(buf)@ + enc_collection(*mc));
    }
}

/// The tag byte that names a message's variant on the wire.
pub open spec fn msg_tag(v: crate::message::Message) -> u8 {
    match v {
        crate::message::Message::RouteAdvertisement(adv) => 0u8,
        crate::message::Message::RouteRecall(rr) => 1u8,
        crate::message::Message::BacklogResponse(br) => 2u8,
        crate::message::Message::BacklogRequest(q) => 3u8,
        crate::message::Message::Ping => 4u8,
        crate::message::Message::Pong => 5u8,
        crate::message::Message::TraceRequest(t) => 6u8,
        crate::message::Message::TraceResponse(t) => 7u8,
        crate::message::Message::TraceEvent(e) => 8u8,
        crate::message::Message::TicketRequest(tq) => 9u8,
        crate::message::Message::TicketResponse(tq) => 10u8,
        crate::message::Message::BroadcastRequest(x) => 11u8,
        crate::message::Message::BroadcastResponse(x) => 12u8,
    }
}

/// Where a message's body starts once its variant tag is read: the
/// stream right after the tag opens with the variant's body.
pub open spec fn msg_body_opens(
    bytes: Seq<u8>,
    k: int,
    v: crate::message::Message,
    rest: Seq<u8>,
) -> bool {
    match v {
        crate::message::Message::RouteAdvertisement(adv) => stream_opens(
            bytes,
            k,
            enc_route_seq(adv.routes@),
            rest,
        ),
        crate::message::Message::RouteRecall(rr) => stream_opens(
            bytes,
            k,
            enc_str(rr.destination_id),
            rest,
        ),
        crate::message::Message::BacklogResponse(br) => stream_opens(
            bytes,
            k,
            enc_u64(br.message_collections@.len() as u64) + enc_mc_cat(br.message_collections@),
            rest,
        ),
        crate::message::Message::BacklogRequest(q) => stream_opens(
            bytes,
            k,
            enc_str(q.gateway_id),
            rest,
        ),
        crate::message::Message::Ping => true,
        crate::message::Message::Pong => true,
        crate::message::Message::TraceRequest(t) => stream_opens(
            bytes,
            k,
            enc_u64(t.hop_count as u64),
            enc_str(t.request_id) + rest,
        ),
        crate::message::Message::TraceResponse(t) => stream_opens(
            bytes,
            k,
            enc_u64(t.hop_count as u64),
            enc_str(t.request_id) + rest,
        ),
        crate::message::Message::TraceEvent(e) => stream_opens(bytes, k, enc_trace_event(e), rest),
        crate::message::Message::TicketRequest(tq) => stream_opens(
            bytes,
            k,
            enc_ticket_message(tq.ticket_message),
            enc_str(tq.ticket_id) + rest,
        ),
        crate::message::Message::TicketResponse(tq) => stream_opens(
            bytes,
            k,
            enc_ticket_message(tq.ticket_message),
            enc_str(tq.ticket_id) + rest,
        ),
        crate::message::Message::BroadcastRequest(x) => stream_opens(
            bytes,
            k,
            enc_broadcast_request(x),
            rest,
        ),
        crate::message::Message::BroadcastResponse(x) => stream_opens(
            bytes,
            k,
            enc_broadcast_response(x),
            rest,
        ),
    }
}

/// Every message has at least its tag byte on the wire.
pub proof fn lemma_enc_message_len(m: crate::message::Message)
    ensures
        enc_message(m).len() >= 1,
{
    match m {
        crate::message::Message::RouteAdvertisement(adv) => {},
        crate::message::Message::RouteRecall(rr) => {},
        crate::message::Message::BacklogResponse(br) => {},
        crate::message::Message::BacklogRequest(q) => {},
        crate::message::Message::Ping => {},
        crate::message::Message::Pong => {},
        crate::message::Message::TraceRequest(t) => {},
        crate::message::Message::TraceResponse(t) => {},
        crate::message::Message::TraceEvent(e) => {},
        crate::message::Message::TicketRequest(tq) => {},
        crate::message::Message::TicketResponse(tq) => {},
        crate::message::Message::BroadcastRequest(x) => {},
        crate::message::Message::BroadcastResponse(x) => {},
    }
}

/// An opened message names its variant in the tag byte, and its body
/// follows.
#[verifier::spinoff_prover]
#[verifier::rlimit(100)]
pub proof fn lemma_msg_opens_body(
    bytes: Seq<u8>,
    i: int,
    v: crate::message::Message,
    rest: Seq<u8>,
)
    requires
        stream_opens(bytes, i, enc_message(v), rest),
    ensures
        i < bytes.len(),
        bytes[i] == msg_tag(v),
        msg_body_opens(bytes, i + 1, v, rest),
{
    lemma_enc_message_len(v);
    lemma_stream_opens_parts(bytes, i, enc_message(v), rest);
    match v {
        crate::message::Message::RouteAdvertisement(adv) => {
            assert(enc_message(v) + rest =~= seq![0u8] + (enc_route_seq(adv.routes@) + rest));
            lemma_stream_opens_parts(bytes, i, seq![0u8], enc_route_seq(adv.routes@) + rest);
            assert(bytes[i] == bytes.subrange(i, i + 1)[0]);
        },
        crate::message::Message::RouteRecall(rr) => {
            assert(enc_message(v) + rest =~= seq![1u8] + (enc_str(rr.destination_id) + rest));
            lemma_stream_opens_parts(bytes, i, seq![1u8], enc_str(rr.destination_id) + rest);
            assert(bytes[i] == bytes.subrange(i, i + 1)[0]);
        },
        crate::message::Message::BacklogResponse(br) => {
            assert(enc_message(v) + rest =~= seq![2u8] + ((enc_u64(br.message_collections@.len() as u64) + enc_mc_cat(br.message_collections@)) + rest));
            lemma_stream_opens_parts(bytes, i, seq![2u8], (enc_u64(br.message_collections@.len() as u64) + enc_mc_cat(br.message_collections@)) + rest);
            assert(bytes[i] == bytes.subrange(i, i + 1)[0]);
        },
        crate::message::Message::BacklogRequest(q) => {
            assert(enc_message(v) + rest =~= seq![3u8] + (enc_str(q.gateway_id) + rest));
            lemma_stream_opens_parts(bytes, i, seq![3u8], enc_str(q.gateway_id) + rest);
            assert(bytes[i] == bytes.subrange(i, i + 1)[0]);
        },
        crate::message::Message::Ping => {
            assert(enc_message(v) + rest =~= seq![4u8] + (rest));
            lemma_stream_opens_parts(bytes, i, seq![4u8], rest);
            assert(bytes[i] == bytes.subrange(i, i + 1)[0]);
        },
        crate::message::Message::Pong => {
            assert(enc_message(v) + rest =~= seq![5u8] + (rest));
            lemma_stream_opens_parts(bytes, i, seq![5u8], rest);
            assert(bytes[i] == bytes.subrange(i, i + 1)[0]);
        },
        crate::message::Message::TraceRequest(t) => {
            assert(enc_message(v) + rest =~= seq![6u8] + (enc_u64(t.hop_count as u64) + (enc_str(t.request_id) + rest)));
            lemma_stream_opens_parts(bytes, i, seq![6u8], enc_u64(t.hop_count as u64) + (enc_str(t.request_id) + rest));
            assert(bytes[i] == bytes.subrange(i, i + 1)[0]);
        },
        crate::message::Message::TraceResponse(t) => {
            assert(enc_message(v) + rest =~= seq![7u8] + (enc_u64(t.hop_count as u64) + (enc_str(t.request_id) + rest)));
            lemma_stream_opens_parts(bytes, i, seq![7u8], enc_u64(t.hop_count as u64) + (enc_str(t.request_id) + rest));
            assert(bytes[i] == bytes.subrange(i, i + 1)[0]);
        },
        crate::message::Message::TraceEvent(e) => {
            assert(enc_message(v) + rest =~= seq![8u8] + (enc_trace_event(e) + rest));
            lemma_stream_opens_parts(bytes, i, seq![8u8], enc_trace_event(e) + rest);
            assert(bytes[i] == bytes.subrange(i, i + 1)[0]);
        },
        crate::message::Message::TicketRequest(tq) => {
            assert(enc_message(v) + rest =~= seq![9u8] + (enc_ticket_message(tq.ticket_message) + (enc_str(tq.ticket_id) + rest)));
            lemma_stream_opens_parts(bytes, i, seq![9u8], enc_ticket_message(tq.ticket_message) + (enc_str(tq.ticket_id) + rest));
            assert(bytes[i] == bytes.subrange(i, i + 1)[0]);
        },
        crate::message::Message::TicketResponse(tq) => {
            assert(enc_message(v) + rest =~= seq![10u8] + (enc_ticket_message(tq.ticket_message) + (enc_str(tq.ticket_id) + rest)));
            lemma_stream_opens_parts(bytes, i, seq![10u8], enc_ticket_message(tq.ticket_message) + (enc_str(tq.ticket_id) + rest));
            assert(bytes[i] == bytes.subrange(i, i + 1)[0]);
        },
        crate::message::Message::BroadcastRequest(x) => {
            assert(enc_message(v) + rest =~= seq![11u8] + (enc_broadcast_request(x) + rest));
            lemma_stream_opens_parts(bytes, i, seq![11u8], enc_broadcast_request(x) + rest);
            assert(bytes[i] == bytes.subrange(i, i + 1)[0]);
        },
        crate::message::Message::BroadcastResponse(x) => {
            assert(enc_message(v) + rest =~= seq![12u8] + (enc_broadcast_response(x) + rest));
            lemma_stream_opens_parts(bytes, i, seq![12u8], enc_broadcast_response(x) + rest);
            assert(bytes[i] == bytes.subrange(i, i + 1)[0]);
        },
    }
}

/// Every batch of an encodable batch train is itself encodable.
pub proof fn lemma_encodable_mc_cat_elem(s: Seq<crate::message::MessageCollection>, c: int)
    requires
        encodable_mc_cat(s),
        0 <= c < s.len(),
    ensures
        encodable_collection(s[c]),
    decreases c,
{
    if c > 0 {
        lemma_encodable_mc_cat_elem(s.drop_first(), c - 1);
        assert(s.drop_first()[c - 1] == s[c]);
    }
}

/// Every message of an encodable message train is itself encodable.
pub proof fn lemma_encodable_message_cat_elem(s: Seq<crate::message::Message>, c: int)
    requires
        encodable_message_cat(s),
        0 <= c < s.len(),
    ensures
        encodable_message(s[c]),
    decreases c,
{
    if c > 0 {
        lemma_encodable_message_cat_elem(s.drop_first(), c - 1);
        assert(s.drop_first()[c - 1] == s[c]);
    }
}

/// Read a length-prefixed train of batches back.
#[verifier::spinoff_prover]
#[verifier::rlimit(100)]
pub fn read_mc_list(bytes: &Vec<u8>, i: usize) -> (r: Option<
    (Vec<crate::message::MessageCollection>, usize),
>)
    ensures
        r matches Some((v, j)) ==> i <= j <= bytes@.len() && bytes@.subrange(i as int, j as int)
            == enc_u64(v@.len() as u64) + enc_mc_cat(v@) && encodable_mc_cat(v@)
            && v@.len() < 0x1_0000_0000_0000_0000,
        forall|x: Seq<crate::message::MessageCollection>, rest: Seq<u8>|
            x.len() < 0x1_0000_0000_0000_0000 && encodable_mc_cat(x) && #[trigger] stream_opens(
                bytes@,
                i as int,
                enc_u64(x.len() as u64) + enc_mc_cat(x),
                rest,
            ) ==> r is Some,
    decreases bytes@.len() - i, 0int,
{
    proof {
        assert forall|x: Seq<crate::message::MessageCollection>, rest: Seq<u8>|
            x.len() < 0x1_0000_0000_0000_0000 && encodable_mc_cat(x) && #[trigger] stream_opens(
                bytes@,
                i as int,
                enc_u64(x.len() as u64) + enc_mc_cat(x),
                rest,
            ) implies stream_opens(
            bytes@,
            i as int,
            enc_u64(x.len() as u64),
            enc_mc_cat(x) + rest,
        ) by {
            assert((enc_u64(x.len() as u64) + enc_mc_cat(x)) + rest =~= enc_u64(
                x.len() as u64,
            ) + (enc_mc_cat(x) + rest));
        }
    }
    let (n, k2) = match read_u64(bytes, i) {
        Some(p) => p,
        None => { return None; },
    };
    proof {
        assert forall|x: Seq<crate::message::MessageCollection>, rest: Seq<u8>|
            x.len() < 0x1_0000_0000_0000_0000 && encodable_mc_cat(x) && #[trigger] stream_opens(
                bytes@,
                i as int,
                enc_u64(x.len() as u64) + enc_mc_cat(x),
                rest,
            ) implies x.len() == n && stream_opens(
            bytes@,
            k2 as int,
            enc_mc_cat(x.skip(0)),
            rest,
        ) by {
            lemma_auto_spec_u64_to_from_le_bytes();
            lemma_stream_feed(bytes@, i as int, k2 as int, enc_u64(x.len() as u64), enc_mc_cat(
                x,
            ) + rest);
            lemma_concat_parts(
                enc_u64(n),
                bytes@.skip(k2 as int),
                enc_u64(x.len() as u64),
                enc_mc_cat(x) + rest,
            );
            assert(spec_u64_from_le_bytes(enc_u64(n)) == spec_u64_from_le_bytes(
                enc_u64(x.len() as u64),
            ));
            assert(x.skip(0) =~= x);
        }
    }
    let mut out: Vec<crate::message::MessageCollection> = Vec::new();
    let mut cur = k2;
    let mut c: u64 = 0;
    while c < n
        invariant
            i + 8 == k2,
            k2 <= cur <= bytes@.len(),
            c <= n,
            out@.len() == c,
            bytes@.subrange(k2 as int, cur as int) == enc_mc_cat(out@),
            encodable_mc_cat(out@),
            forall|x: Seq<crate::message::MessageCollection>, rest: Seq<u8>|
                x.len() < 0x1_0000_0000_0000_0000 && encodable_mc_cat(x)
                    && #[trigger] stream_opens(
                    bytes@,
                    i as int,
                    enc_u64(x.len() as u64) + enc_mc_cat(x),
                    rest,
                ) ==> x.len() == n && stream_opens(
                    bytes@,
                    cur as int,
                    enc_mc_cat(x.skip(c as int)),
                    rest,
                ),
        decreases n - c,
    {
        proof {
            assert forall|x: Seq<crate::message::MessageCollection>, rest: Seq<u8>|
                x.len() < 0x1_0000_0000_0000_0000 && encodable_mc_cat(x)
                    && #[trigger] stream_opens(
                    bytes@,
                    i as int,
                    enc_u64(x.len() as u64) + enc_mc_cat(x),
                    rest,
                ) implies stream_opens(
                bytes@,
                cur as int,
                enc_collection(x[c as int]),
                enc_mc_cat(x.skip(c + 1)) + rest,
            ) && encodable_collection(x[c as int]) by {
                let s = x.skip(c as int);
                assert(s[0] == x[c as int]);
                assert(s.drop_first() =~= x.skip(c + 1));
                assert(enc_mc_cat(s) == enc_collection(s[0]) + enc_mc_cat(s.drop_first()));
                assert(enc_mc_cat(s) + rest =~= enc_collection(x[c as int]) + (enc_mc_cat(
                    x.skip(c + 1),
                ) + rest));
                lemma_encodable_mc_cat_elem(x, c as int);
            }
        }
        let (row, j) = match read_collection(bytes, cur) {
            Some(p) => p,
            None => { return None; },
        };
        proof {
            assert forall|x: Seq<crate::message::MessageCollection>, rest: Seq<u8>|
                x.len() < 0x1_0000_0000_0000_0000 && encodable_mc_cat(x)
                    && #[trigger] stream_opens(
                    bytes@,
                    i as int,
                    enc_u64(x.len() as u64) + enc_mc_cat(x),
                    rest,
                ) implies stream_opens(
                bytes@,
                j as int,
                enc_mc_cat(x.skip(c + 1)),
                rest,
            ) by {
                lemma_stream_feed(
                    bytes@,
                    cur as int,
                    j as int,
                    enc_collection(x[c as int]),
                    enc_mc_cat(x.skip(c + 1)) + rest,
                );
                lemma_enc_collection_prefix(
                    row,
                    x[c as int],
                    bytes@.skip(j as int),
                    enc_mc_cat(x.skip(c + 1)) + rest,
                );
            }
            lemma_enc_mc_cat_snoc(out@, row);
            assert(bytes@.subrange(k2 as int, j as int) =~= bytes@.subrange(
                k2 as int,
                cur as int,
            ) + bytes@.subrange(cur as int, j as int));
        }
        out.push(row);
        cur = j;
        c = c + 1;
    }
    proof {
        lemma_auto_spec_u64_to_from_le_bytes();
        assert(bytes@.subrange(i as int, cur as int) =~= bytes@.subrange(i as int, k2 as int)
            + bytes@.subrange(k2 as int, cur as int));
    }
    Some((out, cur))
}

/// Read a message back.
#[verifier::spinoff_prover]
#[verifier::rlimit(100)]
pub fn read_message(bytes: &Vec<u8>, i: usize) -> (r: Option<(crate::message::Message, usize)>)
    ensures
        r matches Some((v, j)) ==> i <= j <= bytes@.len() && bytes@.subrange(i as int, j as int)
            == enc_message(v) && encodable_message(v),
        forall|v: crate::message::Message, rest: Seq<u8>|
            encodable_message(v) && #[trigger] stream_opens(bytes@, i as int, enc_message(v), rest)
                ==> r is Some,
    decreases bytes@.len() - i, 1int,
{
    proof {
        assert forall|v: crate::message::Message, rest: Seq<u8>|
            encodable_message(v) && #[trigger] stream_opens(
                bytes@,
                i as int,
                enc_message(v),
                rest,
            ) implies i < bytes@.len() && bytes@[i as int] == msg_tag(v) && msg_body_opens(
            bytes@,
            i + 1,
            v,
            rest,
        ) by {
            lemma_msg_opens_body(bytes@, i as int, v, rest);
        }
    }
    if i >= bytes.len() {
        return None;
    }
    let tag = bytes[i];
    let k = i + 1;
    if tag == 0u8 {
        let (routes, j) = match read_route_seq(bytes, k) {
            Some(p) => p,
            None => {
                proof {
                assert forall|v: crate::message::Message, rest: Seq<u8>|
            encodable_message(v) && #[trigger] stream_opens(
                bytes@,
                i as int,
                enc_message(v),
                rest,
            ) implies false by {
                match v {
                    crate::message::Message::RouteAdvertisement(adv) => {
                        assert(stream_opens(bytes@, k as int, enc_route_seq(adv.routes@), rest));
                    },
                    _ => {},
                }
            }
                }
                return None;
            },
        };
        let v = crate::message::Message::RouteAdvertisement(
            crate::routing::RouteAdvertisement { routes },
        );
        proof {
            assert(bytes@.subrange(i as int, j as int) =~= enc_message(v));
        }
        Some((v, j))
    } else if tag == 1u8 {
        let (destination_id, j) = match read_str(bytes, k) {
            Some(p) => p,
            None => {
                proof {
                assert forall|v: crate::message::Message, rest: Seq<u8>|
            encodable_message(v) && #[trigger] stream_opens(
                bytes@,
                i as int,
                enc_message(v),
                rest,
            ) implies false by {
                match v {
                    crate::message::Message::RouteRecall(rr) => {
                        assert(stream_opens(bytes@, k as int, enc_str(rr.destination_id), rest));
                    },
                    _ => {},
                }
            }
                }
                return None;
            },
        };
        let v = crate::message::Message::RouteRecall(
            crate::routing::RouteRecall { destination_id },
        );
        proof {
            assert(bytes@.subrange(i as int, j as int) =~= enc_message(v));
        }
        Some((v, j))
    } else if tag == 2u8 {
        let (out, j) = match read_mc_list(bytes, k) {
            Some(p) => p,
            None => {
                proof {
                assert forall|v: crate::message::Message, rest: Seq<u8>|
            encodable_message(v) && #[trigger] stream_opens(
                bytes@,
                i as int,
                enc_message(v),
                rest,
            ) implies false by {
                match v {
                    crate::message::Message::BacklogResponse(br) => {
                        assert(stream_opens(bytes@, k as int, enc_u64(br.message_collections@.len() as u64) + enc_mc_cat(br.message_collections@), rest));
                    },
                    _ => {},
                }
            }
                }
                return None;
            },
        };
        let v = crate::message::Message::BacklogResponse(
            crate::backlog::BacklogResponse { message_collections: out },
        );
        proof {
            assert(bytes@.subrange(i as int, j as int) =~= seq![2u8] + bytes@.subrange(
                k as int,
                j as int,
            ));
            assert(bytes@.subrange(i as int, j as int) =~= enc_message(v));
        }
        Some((v, j))
    } else if tag == 3u8 {
        let (gateway_id, j) = match read_str(bytes, k) {
            Some(p) => p,
            None => {
                proof {
                assert forall|v: crate::message::Message, rest: Seq<u8>|
            encodable_message(v) && #[trigger] stream_opens(
                bytes@,
                i as int,
                enc_message(v),
                rest,
            ) implies false by {
                match v {
                    crate::message::Message::BacklogRequest(q) => {
                        assert(stream_opens(bytes@, k as int, enc_str(q.gateway_id), rest));
                    },
                    _ => {},
                }
            }
                }
                return None;
            },
        };
        let v = crate::message::Message::BacklogRequest(
            crate::backlog::BacklogRequest { gateway_id },
        );
        proof {
            assert(bytes@.subrange(i as int, j as int) =~= enc_message(v));
        }
        Some((v, j))
    } else if tag == 4u8 {
        proof {
            assert(bytes@.subrange(i as int, k as int) =~= enc_message(
                crate::message::Message::Ping,
            ));
        }
        Some((crate::message::Message::Ping, k))
    } else if tag == 5u8 {
        proof {
            assert(bytes@.subrange(i as int, k as int) =~= enc_message(
                crate::message::Message::Pong,
            ));
        }
        Some((crate::message::Message::Pong, k))
    } else if tag == 6u8 || tag == 7u8 {
        let (hop64, k0) = match read_u64(bytes, k) {
            Some(p) => p,
            None => {
                proof {
                assert forall|v: crate::message::Message, rest: Seq<u8>|
            encodable_message(v) && #[trigger] stream_opens(
                bytes@,
                i as int,
                enc_message(v),
                rest,
            ) implies false by {
                match v {
                    crate::message::Message::TraceRequest(t) => {
                        assert(stream_opens(bytes@, k as int, enc_u64(t.hop_count as u64), enc_str(t.request_id) + rest));
                    },
                    crate::message::Message::TraceResponse(t) => {
                        assert(stream_opens(bytes@, k as int, enc_u64(t.hop_count as u64), enc_str(t.request_id) + rest));
                    },
                    _ => {},
                }
            }
                }
                return None;
            },
        };
        proof {
        assert forall|v: crate::message::Message, rest: Seq<u8>|
            encodable_message(v) && #[trigger] stream_opens(
                bytes@,
                i as int,
                enc_message(v),
                rest,
            ) implies match v {
            crate::message::Message::TraceRequest(t) => hop64 == t.hop_count as u64
                && stream_opens(bytes@, k0 as int, enc_str(t.request_id), rest),
            crate::message::Message::TraceResponse(t) => hop64 == t.hop_count as u64
                && stream_opens(bytes@, k0 as int, enc_str(t.request_id), rest),
            _ => false,
        } by {
            lemma_auto_spec_u64_to_from_le_bytes();
            match v {
                crate::message::Message::TraceRequest(t) => {
                    lemma_stream_feed(bytes@, k as int, k0 as int, enc_u64(t.hop_count as u64), enc_str(t.request_id) + rest);
                    lemma_concat_parts(enc_u64(hop64), bytes@.skip(k0 as int), enc_u64(t.hop_count as u64), enc_str(t.request_id) + rest);
                    assert(spec_u64_from_le_bytes(enc_u64(hop64)) == spec_u64_from_le_bytes(enc_u64(t.hop_count as u64)));
                },
                crate::message::Message::TraceResponse(t) => {
                    lemma_stream_feed(bytes@, k as int, k0 as int, enc_u64(t.hop_count as u64), enc_str(t.request_id) + rest);
                    lemma_concat_parts(enc_u64(hop64), bytes@.skip(k0 as int), enc_u64(t.hop_count as u64), enc_str(t.request_id) + rest);
                    assert(spec_u64_from_le_bytes(enc_u64(hop64)) == spec_u64_from_le_bytes(enc_u64(t.hop_count as u64)));
                },
                _ => {},
            }
        }
        }
        if hop64 > (usize::MAX) as u64 {
            return None;
        }
        let hop_count = hop64 as usize;
        let (request_id, j) = match read_str(bytes, k0) {
            Some(p) => p,
            None => {
                return None;
            },
        };
        let v = if tag == 6u8 {
            crate::message::Message::TraceRequest(
                crate::tracing::TraceRequest { hop_count, request_id },
            )
        } else {
            crate::message::Message::TraceResponse(
                crate::tracing::TraceResponse { hop_count, request_id },
            )
        };
        proof {
            assert(bytes@.subrange(i as int, j as int) =~= enc_message(v));
        }
        Some((v, j))
    } else if tag == 8u8 {
        let (e, j) = match read_trace_event(bytes, k) {
            Some(p) => p,
            None => {
                proof {
                assert forall|v: crate::message::Message, rest: Seq<u8>|
            encodable_message(v) && #[trigger] stream_opens(
                bytes@,
                i as int,
                enc_message(v),
                rest,
            ) implies false by {
                match v {
                    crate::message::Message::TraceEvent(e) => {
                        assert(stream_opens(bytes@, k as int, enc_trace_event(e), rest));
                    },
                    _ => {},
                }
            }
                }
                return None;
            },
        };
        let v = crate::message::Message::TraceEvent(e);
        proof {
            assert(bytes@.subrange(i as int, j as int) =~= enc_message(v));
        }
        Some((v, j))
    } else if tag == 9u8 || tag == 10u8 {
        let (ticket_message, k0) = match read_ticket_message(bytes, k) {
            Some(p) => p,
            None => {
                proof {
                assert forall|v: crate::message::Message, rest: Seq<u8>|
            encodable_message(v) && #[trigger] stream_opens(
                bytes@,
                i as int,
                enc_message(v),
                rest,
            ) implies false by {
                match v {
                    crate::message::Message::TicketRequest(tq) => {
                        assert(stream_opens(bytes@, k as int, enc_ticket_message(tq.ticket_message), enc_str(tq.ticket_id) + rest));
                    },
                    crate::message::Message::TicketResponse(tq) => {
                        assert(stream_opens(bytes@, k as int, enc_ticket_message(tq.ticket_message), enc_str(tq.ticket_id) + rest));
                    },
                    _ => {},
                }
            }
                }
                return None;
            },
        };
        proof {
        assert forall|v: crate::message::Message, rest: Seq<u8>|
            encodable_message(v) && #[trigger] stream_opens(
                bytes@,
                i as int,
                enc_message(v),
                rest,
            ) implies match v {
            crate::message::Message::TicketRequest(tq) => stream_opens(
                bytes@,
                k0 as int,
                enc_str(tq.ticket_id),
                rest,
            ),
            crate::message::Message::TicketResponse(tq) => stream_opens(
                bytes@,
                k0 as int,
                enc_str(tq.ticket_id),
                rest,
            ),
            _ => false,
        } by {
            match v {
                crate::message::Message::TicketRequest(tq) => {
                    lemma_stream_feed(bytes@, k as int, k0 as int, enc_ticket_message(tq.ticket_message), enc_str(tq.ticket_id) + rest);
                    lemma_enc_ticket_message_prefix(ticket_message, tq.ticket_message, bytes@.skip(k0 as int), enc_str(tq.ticket_id) + rest);
                },
                crate::message::Message::TicketResponse(tq) => {
                    lemma_stream_feed(bytes@, k as int, k0 as int, enc_ticket_message(tq.ticket_message), enc_str(tq.ticket_id) + rest);
                    lemma_enc_ticket_message_prefix(ticket_message, tq.ticket_message, bytes@.skip(k0 as int), enc_str(tq.ticket_id) + rest);
                },
                _ => {},
            }
        }
        }
        let (ticket_id, j) = match read_str(bytes, k0) {
            Some(p) => p,
            None => {
                return None;
            },
        };
        let v = if tag == 9u8 {
            crate::message::Message::TicketRequest(
                crate::ticket::TicketRequest { ticket_message, ticket_id },
            )
        } else {
            crate::message::Message::TicketResponse(
                crate::ticket::TicketResponse { ticket_message, ticket_id },
            )
        };
        proof {
            assert(bytes@.subrange(i as int, j as int) =~= enc_message(v));
        }
        Some((v, j))
    } else if tag == 11u8 {
        let (x, j) = match read_broadcast_request(bytes, k) {
            Some(p) => p,
            None => {
                proof {
                assert forall|v: crate::message::Message, rest: Seq<u8>|
            encodable_message(v) && #[trigger] stream_opens(
                bytes@,
                i as int,
                enc_message(v),
                rest,
            ) implies false by {
                match v {
                    crate::message::Message::BroadcastRequest(x) => {
                        assert(stream_opens(bytes@, k as int, enc_broadcast_request(x), rest));
                    },
                    _ => {},
                }
            }
                }
                return None;
            },
        };
        let v = crate::message::Message::BroadcastRequest(x);
        proof {
            assert(bytes@.subrange(i as int, j as int) =~= enc_message(v));
        }
        Some((v, j))
    } else if tag == 12u8 {
        let (x, j) = match read_broadcast_response(bytes, k) {
            Some(p) => p,
            None => {
                proof {
                assert forall|v: crate::message::Message, rest: Seq<u8>|
            encodable_message(v) && #[trigger] stream_opens(
                bytes@,
                i as int,
                enc_message(v),
                rest,
            ) implies false by {
                match v {
                    crate::message::Message::BroadcastResponse(x) => {
                        assert(stream_opens(bytes@, k as int, enc_broadcast_response(x), rest));
                    },
                    _ => {},
                }
            }
                }
                return None;
            },
        };
        let v = crate::message::Message::BroadcastResponse(x);
        proof {
            assert(bytes@.subrange(i as int, j as int) =~= enc_message(v));
        }
        Some((v, j))
    } else {
        None
    }
}

/// Read a batch back.
#[verifier::spinoff_prover]
#[verifier::rlimit(100)]
pub fn read_collection(bytes: &Vec<u8>, i: usize) -> (r: Option<
    (crate::message::MessageCollection, usize),
>)
    ensures
        r matches Some((v, j)) ==> i <= j <= bytes@.len() && bytes@.subrange(i as int, j as int)
            == enc_collection(v) && encodable_collection(v),
        forall|v: crate::message::MessageCollection, rest: Seq<u8>|
            encodable_collection(v) && #[trigger] stream_opens(
                bytes@,
                i as int,
                enc_collection(v),
                rest,
            ) ==> r is Some,
    decreases bytes@.len() - i, 2int,
{
    proof {
        assert forall|v: crate::message::MessageCollection, rest: Seq<u8>|
            encodable_collection(v) && #[trigger] stream_opens(
                bytes@,
                i as int,
                enc_collection(v),
                rest,
            ) implies stream_opens(
            bytes@,
            i as int,
            enc_u64(v.messages@.len() as u64),
            enc_message_cat(v.messages@) + (enc_str(v.origin_id) + (enc_opt_str(v.destination_id) + rest)),
        ) by {
            assert(enc_collection(v) + rest =~= enc_u64(v.messages@.len() as u64) + (
            enc_message_cat(v.messages@) + (enc_str(v.origin_id) + (enc_opt_str(v.destination_id) + rest))));
        }
    }
    let (n, k) = match read_u64(bytes, i) {
        Some(p) => p,
        None => { return None; },
    };
    proof {
        assert forall|v: crate::message::MessageCollection, rest: Seq<u8>|
            encodable_collection(v) && #[trigger] stream_opens(
                bytes@,
                i as int,
                enc_collection(v),
                rest,
            ) implies v.messages@.len() == n && stream_opens(
            bytes@,
            k as int,
            enc_message_cat(v.messages@.skip(0)),
            enc_str(v.origin_id) + (enc_opt_str(v.destination_id) + rest),
        ) by {
            lemma_auto_spec_u64_to_from_le_bytes();
            lemma_stream_feed(
                bytes@,
                i as int,
                k as int,
                enc_u64(v.messages@.len() as u64),
                enc_message_cat(v.messages@) + (enc_str(v.origin_id) + (enc_opt_str(v.destination_id) + rest)),
            );
            lemma_concat_parts(
                enc_u64(n),
                bytes@.skip(k as int),
                enc_u64(v.messages@.len() as u64),
                enc_message_cat(v.messages@) + (enc_str(v.origin_id) + (enc_opt_str(v.destination_id) + rest)),
            );
            assert(spec_u64_from_le_bytes(enc_u64(n)) == spec_u64_from_le_bytes(
                enc_u64(v.messages@.len() as u64),
            ));
            assert(v.messages@.skip(0) =~= v.messages@);
        }
    }
    let mut out: Vec<crate::message::Message> = Vec::new();
    let mut cur = k;
    let mut c: u64 = 0;
    while c < n
        invariant
            i + 8 == k,
            k <= cur <= bytes@.len(),
            c <= n,
            out@.len() == c,
            bytes@.subrange(k as int, cur as int) == enc_message_cat(out@),
            encodable_message_cat(out@),
            forall|v: crate::message::MessageCollection, rest: Seq<u8>|
                encodable_collection(v) && #[trigger] stream_opens(
                    bytes@,
                    i as int,
                    enc_collection(v),
                    rest,
                ) ==> v.messages@.len() == n && stream_opens(
                    bytes@,
                    cur as int,
                    enc_message_cat(v.messages@.skip(c as int)),
                    enc_str(v.origin_id) + (enc_opt_str(v.destination_id) + rest),
                ),
        decreases n - c,
    {
        proof {
        assert forall|v: crate::message::MessageCollection, rest: Seq<u8>|
            encodable_collection(v) && #[trigger] stream_opens(
                bytes@,
                i as int,
                enc_collection(v),
                rest,
            ) implies stream_opens(
                bytes@,
                cur as int,
                enc_message(v.messages@[c as int]),
                enc_message_cat(v.messages@.skip(c + 1)) + (enc_str(v.origin_id) + (enc_opt_str(v.destination_id) + rest)),
            ) && encodable_message(v.messages@[c as int]) by {
                let s = v.messages@.skip(c as int);
                assert(s[0] == v.messages@[c as int]);
                assert(s.drop_first() =~= v.messages@.skip(c + 1));
                assert(enc_message_cat(s) == enc_message(s[0]) + enc_message_cat(s.drop_first()));
                assert(enc_message_cat(s) + (enc_str(v.origin_id) + (enc_opt_str(v.destination_id) + rest)) =~= enc_message(
                    v.messages@[c as int],
                ) + (enc_message_cat(v.messages@.skip(c + 1)) + (enc_str(v.origin_id) + (enc_opt_str(v.destination_id) + rest))));
                lemma_encodable_message_cat_elem(v.messages@, c as int);
            }
        }
        let (row, j) = match read_message(bytes, cur) {
            Some(p) => p,
            None => { return None; },
        };
        proof {
        assert forall|v: crate::message::MessageCollection, rest: Seq<u8>|
            encodable_collection(v) && #[trigger] stream_opens(
                bytes@,
                i as int,
                enc_collection(v),
                rest,
            ) implies stream_opens(
                bytes@,
                j as int,
                enc_message_cat(v.messages@.skip(c + 1)),
                enc_str(v.origin_id) + (enc_opt_str(v.destination_id) + rest),
            ) by {
                lemma_stream_feed(
                    bytes@,
                    cur as int,
                    j as int,
                    enc_message(v.messages@[c as int]),
                    enc_message_cat(v.messages@.skip(c + 1)) + (enc_str(v.origin_id) + (enc_opt_str(v.destination_id) + rest)),
                );
                lemma_enc_message_prefix(
                    row,
                    v.messages@[c as int],
                    bytes@.skip(j as int),
                    enc_message_cat(v.messages@.skip(c + 1)) + (enc_str(v.origin_id) + (enc_opt_str(v.destination_id) + rest)),
                );
            }
            lemma_enc_message_cat_snoc(out@, row);
            assert(bytes@.subrange(k as int, j as int) =~= bytes@.subrange(k as int, cur as int)
                + bytes@.subrange(cur as int, j as int));
        }
        out.push(row);
        cur = j;
        c = c + 1;
    }
    proof {
        assert forall|v: crate::message::MessageCollection, rest: Seq<u8>|
            encodable_collection(v) && #[trigger] stream_opens(
                bytes@,
                i as int,
                enc_collection(v),
                rest,
            ) implies stream_opens(
            bytes@,
            cur as int,
            enc_str(v.origin_id),
            enc_opt_str(v.destination_id) + rest,
        ) by {
            assert(v.messages@.skip(c as int) =~= Seq::<crate::message::Message>::empty());
            assert(enc_message_cat(v.messages@.skip(c as int)) =~= Seq::<u8>::empty());
            assert(Seq::<u8>::empty() + (enc_str(v.origin_id) + (enc_opt_str(v.destination_id) + rest)) =~= enc_str(v.origin_id) + (enc_opt_str(v.destination_id) + rest));
        }
    }
    let (origin_id, k3) = match read_str(bytes, cur) {
        Some(p) => p,
        None => { return None; },
    };
    proof {
        assert forall|v: crate::message::MessageCollection, rest: Seq<u8>|
            encodable_collection(v) && #[trigger] stream_opens(
                bytes@,
                i as int,
                enc_collection(v),
                rest,
            ) implies stream_opens(
            bytes@,
            k3 as int,
            enc_opt_str(v.destination_id),
            rest,
        ) by {
            lemma_stream_feed(
                bytes@,
                cur as int,
                k3 as int,
                enc_str(v.origin_id),
                enc_opt_str(v.destination_id) + rest,
            );
            lemma_enc_str_prefix(
                origin_id,
                v.origin_id,
                bytes@.skip(k3 as int),
                enc_opt_str(v.destination_id) + rest,
            );
        }
    }
    let (destination_id, k4) = match read_opt_str(bytes, k3) {
        Some(p) => p,
        None => { return None; },
    };
    let v = crate::message::MessageCollection { messages: out, origin_id, destination_id };
    proof {
        lemma_auto_spec_u64_to_from_le_bytes();
        assert(bytes@.subrange(i as int, k4 as int) =~= enc_collection(v));
    }
    Some((v, k4))
}


/// Strip a hop count and request id from two equal streams.
pub proof fn lemma_hop_id_prefix(
    ah: usize,
    bh: usize,
    arid: String,
    brid: String,
    ra: Seq<u8>,
    rb: Seq<u8>,
)
    requires
        enc_u64(ah as u64) + (enc_str(arid) + ra) == enc_u64(bh as u64) + (enc_str(brid) + rb),
        encodable_str(arid),
        encodable_str(brid),
    ensures
        enc_u64(ah as u64) == enc_u64(bh as u64),
        enc_str(arid) == enc_str(brid),
        ra == rb,
        ah == bh,
        arid@ == brid@,
{
    lemma_auto_spec_u64_to_from_le_bytes();
    lemma_concat_parts(enc_u64(ah as u64), enc_str(arid) + ra, enc_u64(bh as u64), enc_str(brid) + rb);
    assert(spec_u64_from_le_bytes(enc_u64(ah as u64)) == spec_u64_from_le_bytes(
        enc_u64(bh as u64),
    ));
    assert(ah as u64 == bh as u64);
    lemma_enc_str_prefix(arid, brid, ra, rb);
}

/// Strip a ticket payload and ticket id from two equal streams.
pub proof fn lemma_tm_id_prefix(
    am: crate::ticket::TicketMessage,
    bm: crate::ticket::TicketMessage,
    aid: String,
    bid: String,
    ra: Seq<u8>,
    rb: Seq<u8>,
)
    requires
        enc_ticket_message(am) + (enc_str(aid) + ra) == enc_ticket_message(bm) + (enc_str(bid)
            + rb),
        encodable_ticket_message(am),
        encodable_ticket_message(bm),
        encodable_str(aid),
        encodable_str(bid),
    ensures
        enc_ticket_message(am) == enc_ticket_message(bm),
        enc_str(aid) == enc_str(bid),
        ra == rb,
        crate::ticket::ticket_message_eqv(am, bm),
        aid@ == bid@,
{
    lemma_enc_ticket_message_prefix(am, bm, enc_str(aid) + ra, enc_str(bid) + rb);
    lemma_enc_str_prefix(aid, bid, ra, rb);
}

/// Two message encodings that open the same stream carry deeply equal
/// messages.
#[verifier::spinoff_prover]
#[verifier::rlimit(100)]
pub proof fn lemma_enc_message_prefix(
    a: crate::message::Message,
    b: crate::message::Message,
    ra: Seq<u8>,
    rb: Seq<u8>,
)
    requires
        enc_message(a) + ra == enc_message(b) + rb,
        encodable_message(a),
        encodable_message(b),
    ensures
        enc_message(a) == enc_message(b),
        ra == rb,
        crate::message::message_eqv(a, b),
    decreases message_size(a),
{
    assert((enc_message(a) + ra)[0] == enc_message(a)[0]);
    assert((enc_message(b) + rb)[0] == enc_message(b)[0]);
    assert(enc_message(a)[0] == enc_message(b)[0]);
    match (a, b) {
        (
            crate::message::Message::RouteAdvertisement(x),
            crate::message::Message::RouteAdvertisement(y),
        ) => {
            lemma_tag_strip(0u8, enc_route_seq(x.routes@), enc_route_seq(y.routes@), ra, rb);
            lemma_enc_route_seq_prefix(x.routes@, y.routes@, ra, rb);
            assert(enc_message(a) =~= enc_message(b));
        },
        (crate::message::Message::RouteRecall(x), crate::message::Message::RouteRecall(y)) => {
            lemma_tag_strip(1u8, enc_str(x.destination_id), enc_str(y.destination_id), ra, rb);
            lemma_enc_str_prefix(x.destination_id, y.destination_id, ra, rb);
            assert(enc_message(a) =~= enc_message(b));
        },
        (
            crate::message::Message::BacklogResponse(x),
            crate::message::Message::BacklogResponse(y),
        ) => {
            lemma_auto_spec_u64_to_from_le_bytes();
            assert(enc_message(a) + ra =~= (seq![2u8] + (enc_u64(
                x.message_collections@.len() as u64,
            ) + enc_mc_cat(x.message_collections@))) + ra);
            assert(enc_message(b) + rb =~= (seq![2u8] + (enc_u64(
                y.message_collections@.len() as u64,
            ) + enc_mc_cat(y.message_collections@))) + rb);
            lemma_tag_strip(
                2u8,
                enc_u64(x.message_collections@.len() as u64) + enc_mc_cat(x.message_collections@),
                enc_u64(y.message_collections@.len() as u64) + enc_mc_cat(y.message_collections@),
                ra,
                rb,
            );
            assert((enc_u64(x.message_collections@.len() as u64) + enc_mc_cat(
                x.message_collections@,
            )) + ra =~= enc_u64(x.message_collections@.len() as u64) + (enc_mc_cat(
                x.message_collections@,
            ) + ra));
            assert((enc_u64(y.message_collections@.len() as u64) + enc_mc_cat(
                y.message_collections@,
            )) + rb =~= enc_u64(y.message_collections@.len() as u64) + (enc_mc_cat(
                y.message_collections@,
            ) + rb));
            lemma_concat_parts(
                enc_u64(x.message_collections@.len() as u64),
                enc_mc_cat(x.message_collections@) + ra,
                enc_u64(y.message_collections@.len() as u64),
                enc_mc_cat(y.message_collections@) + rb,
            );
            assert(spec_u64_from_le_bytes(enc_u64(x.message_collections@.len() as u64))
                == spec_u64_from_le_bytes(enc_u64(y.message_collections@.len() as u64)));
            assert(x.message_collections@.len() == y.message_collections@.len());
            lemma_enc_mc_cat_prefix(x.message_collections@, y.message_collections@, ra, rb);
            assert(enc_message(a) =~= enc_message(b));
        },
        (crate::message::Message::BacklogRequest(x), crate::message::Message::BacklogRequest(y)) => {
            lemma_tag_strip(3u8, enc_str(x.gateway_id), enc_str(y.gateway_id), ra, rb);
            lemma_enc_str_prefix(x.gateway_id, y.gateway_id, ra, rb);
            assert(enc_message(a) =~= enc_message(b));
        },
        (crate::message::Message::Ping, crate::message::Message::Ping) => {
            lemma_concat_parts(seq![4u8], ra, seq![4u8], rb);
        },
        (crate::message::Message::Pong, crate::message::Message::Pong) => {
            lemma_concat_parts(seq![5u8], ra, seq![5u8], rb);
        },
        (crate::message::Message::TraceRequest(x), crate::message::Message::TraceRequest(y)) => {
            assert(enc_message(a) + ra =~= (seq![6u8] + (enc_u64(x.hop_count as u64) + enc_str(
                x.request_id,
            ))) + ra);
            assert(enc_message(b) + rb =~= (seq![6u8] + (enc_u64(y.hop_count as u64) + enc_str(
                y.request_id,
            ))) + rb);
            lemma_tag_strip(
                6u8,
                enc_u64(x.hop_count as u64) + enc_str(x.request_id),
                enc_u64(y.hop_count as u64) + enc_str(y.request_id),
                ra,
                rb,
            );
            assert((enc_u64(x.hop_count as u64) + enc_str(x.request_id)) + ra =~= enc_u64(
                x.hop_count as u64,
            ) + (enc_str(x.request_id) + ra));
            assert((enc_u64(y.hop_count as u64) + enc_str(y.request_id)) + rb =~= enc_u64(
                y.hop_count as u64,
            ) + (enc_str(y.request_id) + rb));
            lemma_hop_id_prefix(x.hop_count, y.hop_count, x.request_id, y.request_id, ra, rb);
            assert(enc_message(a) =~= enc_message(b));
        },
        (crate::message::Message::TraceResponse(x), crate::message::Message::TraceResponse(y)) => {
            assert(enc_message(a) + ra =~= (seq![7u8] + (enc_u64(x.hop_count as u64) + enc_str(
                x.request_id,
            ))) + ra);
            assert(enc_message(b) + rb =~= (seq![7u8] + (enc_u64(y.hop_count as u64) + enc_str(
                y.request_id,
            ))) + rb);
            lemma_tag_strip(
                7u8,
                enc_u64(x.hop_count as u64) + enc_str(x.request_id),
                enc_u64(y.hop_count as u64) + enc_str(y.request_id),
                ra,
                rb,
            );
            assert((enc_u64(x.hop_count as u64) + enc_str(x.request_id)) + ra =~= enc_u64(
                x.hop_count as u64,
            ) + (enc_str(x.request_id) + ra));
            assert((enc_u64(y.hop_count as u64) + enc_str(y.request_id)) + rb =~= enc_u64(
                y.hop_count as u64,
            ) + (enc_str(y.request_id) + rb));
            lemma_hop_id_prefix(x.hop_count, y.hop_count, x.request_id, y.request_id, ra, rb);
            assert(enc_message(a) =~= enc_message(b));
        },
        (crate::message::Message::TraceEvent(x), crate::message::Message::TraceEvent(y)) => {
            lemma_tag_strip(8u8, enc_trace_event(x), enc_trace_event(y), ra, rb);
            lemma_enc_trace_event_prefix(x, y, ra, rb);
            assert(enc_message(a) =~= enc_message(b));
        },
        (crate::message::Message::TicketRequest(x), crate::message::Message::TicketRequest(y)) => {
            assert(enc_message(a) + ra =~= (seq![9u8] + (enc_ticket_message(x.ticket_message)
                + enc_str(x.ticket_id))) + ra);
            assert(enc_message(b) + rb =~= (seq![9u8] + (enc_ticket_message(y.ticket_message)
                + enc_str(y.ticket_id))) + rb);
            lemma_tag_strip(
                9u8,
                enc_ticket_message(x.ticket_message) + enc_str(x.ticket_id),
                enc_ticket_message(y.ticket_message) + enc_str(y.ticket_id),
                ra,
                rb,
            );
            assert((enc_ticket_message(x.ticket_message) + enc_str(x.ticket_id)) + ra
                =~= enc_ticket_message(x.ticket_message) + (enc_str(x.ticket_id) + ra));
            assert((enc_ticket_message(y.ticket_message) + enc_str(y.ticket_id)) + rb
                =~= enc_ticket_message(y.ticket_message) + (enc_str(y.ticket_id) + rb));
            lemma_tm_id_prefix(
                x.ticket_message,
                y.ticket_message,
                x.ticket_id,
                y.ticket_id,
                ra,
                rb,
            );
            assert(enc_message(a) =~= enc_message(b));
        },
        (crate::message::Message::TicketResponse(x), crate::message::Message::TicketResponse(y)) => {
            assert(enc_message(a) + ra =~= (seq![10u8] + (enc_ticket_message(x.ticket_message)
                + enc_str(x.ticket_id))) + ra);
            assert(enc_message(b) + rb =~= (seq![10u8] + (enc_ticket_message(y.ticket_message)
                + enc_str(y.ticket_id))) + rb);
            lemma_tag_strip(
                10u8,
                enc_ticket_message(x.ticket_message) + enc_str(x.ticket_id),
                enc_ticket_message(y.ticket_message) + enc_str(y.ticket_id),
                ra,
                rb,
            );
            assert((enc_ticket_message(x.ticket_message) + enc_str(x.ticket_id)) + ra
                =~= enc_ticket_message(x.ticket_message) + (enc_str(x.ticket_id) + ra));
            assert((enc_ticket_message(y.ticket_message) + enc_str(y.ticket_id)) + rb
                =~= enc_ticket_message(y.ticket_message) + (enc_str(y.ticket_id) + rb));
            lemma_tm_id_prefix(
                x.ticket_message,
                y.ticket_message,
                x.ticket_id,
                y.ticket_id,
                ra,
                rb,
            );
            assert(enc_message(a) =~= enc_message(b));
        },
        (
            crate::message::Message::BroadcastRequest(x),
            crate::message::Message::BroadcastRequest(y),
        ) => {
            lemma_tag_strip(11u8, enc_broadcast_request(x), enc_broadcast_request(y), ra, rb);
            lemma_enc_broadcast_request_prefix(x, y, ra, rb);
            assert(enc_message(a) =~= enc_message(b));
        },
        (
            crate::message::Message::BroadcastResponse(x),
            crate::message::Message::BroadcastResponse(y),
        ) => {
            lemma_tag_strip(12u8, enc_broadcast_response(x), enc_broadcast_response(y), ra, rb);
            lemma_enc_broadcast_response_prefix(x, y, ra, rb);
            assert(enc_message(a) =~= enc_message(b));
        },
        _ => {
            assert(false);
        },
    }
}

/// Two equal-length message trains that open the same stream carry
/// deeply equal messages.
pub proof fn lemma_enc_message_cat_prefix(
    a: Seq<crate::message::Message>,
    b: Seq<crate::message::Message>,
    ra: Seq<u8>,
    rb: Seq<u8>,
)
    requires
        a.len() == b.len(),
        enc_message_cat(a) + ra == enc_message_cat(b) + rb,
        encodable_message_cat(a),
        encodable_message_cat(b),
    ensures
        enc_message_cat(a) == enc_message_cat(b),
        ra == rb,
        crate::message::message_seq_eqv(a, b),
    decreases message_cat_size(a),
{
    if a.len() == 0 {
        assert(enc_message_cat(a) + ra =~= ra);
        assert(enc_message_cat(b) + rb =~= rb);
    } else {
        assert((enc_message(a[0]) + enc_message_cat(a.drop_first())) + ra =~= enc_message(a[0]) + (
        enc_message_cat(a.drop_first()) + ra));
        assert((enc_message(b[0]) + enc_message_cat(b.drop_first())) + rb =~= enc_message(b[0]) + (
        enc_message_cat(b.drop_first()) + rb));
        lemma_enc_message_prefix(
            a[0],
            b[0],
            enc_message_cat(a.drop_first()) + ra,
            enc_message_cat(b.drop_first()) + rb,
        );
        lemma_enc_message_cat_prefix(a.drop_first(), b.drop_first(), ra, rb);
        assert(enc_message_cat(a) =~= enc_message_cat(b));
    }
}

/// Two batch encodings that open the same stream carry deeply equal
/// batches.
#[verifier::spinoff_prover]
#[verifier::rlimit(100)]
pub proof fn lemma_enc_collection_prefix(
    a: crate::message::MessageCollection,
    b: crate::message::MessageCollection,
    ra: Seq<u8>,
    rb: Seq<u8>,
)
    requires
        enc_collection(a) + ra == enc_collection(b) + rb,
        encodable_collection(a),
        encodable_collection(b),
    ensures
        enc_collection(a) == enc_collection(b),
        ra == rb,
        crate::message::collection_eqv(a, b),
    decreases mc_size(a),
{
    lemma_auto_spec_u64_to_from_le_bytes();
    assert(enc_collection(a) + ra =~= enc_u64(a.messages@.len() as u64) + (enc_message_cat(
        a.messages@,
    ) + (enc_str(a.origin_id) + (enc_opt_str(a.destination_id) + ra))));
    assert(enc_collection(b) + rb =~= enc_u64(b.messages@.len() as u64) + (enc_message_cat(
        b.messages@,
    ) + (enc_str(b.origin_id) + (enc_opt_str(b.destination_id) + rb))));
    lemma_concat_parts(
        enc_u64(a.messages@.len() as u64),
        enc_message_cat(a.messages@) + (enc_str(a.origin_id) + (enc_opt_str(a.destination_id)
            + ra)),
        enc_u64(b.messages@.len() as u64),
        enc_message_cat(b.messages@) + (enc_str(b.origin_id) + (enc_opt_str(b.destination_id)
            + rb)),
    );
    assert(spec_u64_from_le_bytes(enc_u64(a.messages@.len() as u64)) == spec_u64_from_le_bytes(
        enc_u64(b.messages@.len() as u64),
    ));
    assert(a.messages@.len() == b.messages@.len());
    lemma_enc_message_cat_prefix(
        a.messages@,
        b.messages@,
        enc_str(a.origin_id) + (enc_opt_str(a.destination_id) + ra),
        enc_str(b.origin_id) + (enc_opt_str(b.destination_id) + rb),
    );
    lemma_enc_str_prefix(
        a.origin_id,
        b.origin_id,
        enc_opt_str(a.destination_id) + ra,
        enc_opt_str(b.destination_id) + rb,
    );
    lemma_enc_opt_str_prefix(a.destination_id, b.destination_id, ra, rb);
    assert(enc_collection(a) =~= enc_collection(b));
}

/// Two equal-length batch trains that open the same stream carry deeply
/// equal batches.
pub proof fn lemma_enc_mc_cat_prefix(
    a: Seq<crate::message::MessageCollection>,
    b: Seq<crate::message::MessageCollection>,
    ra: Seq<u8>,
    rb: Seq<u8>,
)
    requires
        a.len() == b.len(),
        enc_mc_cat(a) + ra == enc_mc_cat(b) + rb,
        encodable_mc_cat(a),
        encodable_mc_cat(b),
    ensures
        enc_mc_cat(a) == enc_mc_cat(b),
        ra == rb,
        crate::message::collection_seq_eqv(a, b),
    decreases mc_cat_size(a),
{
    if a.len() == 0 {
        assert(enc_mc_cat(a) + ra =~= ra);
        assert(enc_mc_cat(b) + rb =~= rb);
    } else {
        assert((enc_collection(a[0]) + enc_mc_cat(a.drop_first())) + ra =~= enc_collection(a[0]) + (
        enc_mc_cat(a.drop_first()) + ra));
        assert((enc_collection(b[0]) + enc_mc_cat(b.drop_first())) + rb =~= enc_collection(b[0]) + (
        enc_mc_cat(b.drop_first()) + rb));
        lemma_enc_collection_prefix(
            a[0],
            b[0],
            enc_mc_cat(a.drop_first()) + ra,
            enc_mc_cat(b.drop_first()) + rb,
        );
        lemma_enc_mc_cat_prefix(a.drop_first(), b.drop_first(), ra, rb);
        assert(enc_mc_cat(a) =~= enc_mc_cat(b));
    }
}

/// The wire encoding pins the batch down: two batches with the same
/// encoding are deeply equal.  Together with the contracts of
/// `encode_message_collection` and `decode_message_collection`, this is
/// the round-trip law: whatever a decode of an encoded batch returns
/// re-encodes to the same bytes, so it is the original batch.
pub proof fn lemma_encoding_injective(
    a: crate::message::MessageCollection,
    b: crate::message::MessageCollection,
)
    requires
        enc_collection(a) == enc_collection(b),
        encodable_collection(a),
        encodable_collection(b),
    ensures
        crate::message::collection_eqv(a, b),
{
    assert(enc_collection(a) + Seq::<u8>::empty() =~= enc_collection(a));
    assert(enc_collection(b) + Seq::<u8>::empty() =~= enc_collection(b));
    lemma_enc_collection_prefix(a, b, Seq::<u8>::empty(), Seq::<u8>::empty());
}

/// Encode a batch for the wire.
pub fn encode_message_collection(mc: &crate::message::MessageCollection) -> (r: Vec<u8>)
    ensures
        r@ == enc_collection(*mc),
        encodable_collection(*mc),
{
    let mut buf: Vec<u8> = Vec::new();
    write_collection(mc, &mut buf);
    proof {
        assert(buf@ =~= enc_collection(*mc));
    }
    buf
}

/// Decode a batch off the wire.  A successful decode consumes the whole
/// input and yields a batch that encodes back to exactly those bytes; by
/// `lemma_encoding_injective` that batch is deeply equal to whatever was
/// encoded.  Conversely, whenever the input is the encoding of some
/// batch that fits the wire, decoding succeeds.
pub fn decode_message_collection(bytes: &Vec<u8>) -> (r: Option<crate::message::MessageCollection>)
    ensures
        r matches Some(v) ==> bytes@ == enc_collection(v) && encodable_collection(v),
        (exists|v: crate::message::MessageCollection|
            bytes@ == enc_collection(v) && encodable_collection(v)) ==> r is Some,
{
    proof {
        if exists|v: crate::message::MessageCollection|
            bytes@ == enc_collection(v) && encodable_collection(v) {
            let v = choose|v: crate::message::MessageCollection|
                bytes@ == enc_collection(v) && encodable_collection(v);
            assert(bytes@.skip(0) =~= bytes@);
            assert(enc_collection(v) + Seq::<u8>::empty() =~= enc_collection(v));
            assert(stream_opens(bytes@, 0, enc_collection(v), Seq::<u8>::empty()));
        }
    }
    match read_collection(bytes, 0) {
        Some((x, j)) => {
            if j == bytes.len() {
                proof {
                    assert(bytes@.subrange(0, bytes@.len() as int) =~= bytes@);
                }
                Some(x)
            } else {
                proof {
                    if exists|v: crate::message::MessageCollection|
                        bytes@ == enc_collection(v) && encodable_collection(v) {
                        let v = choose|v: crate::message::MessageCollection|
                            bytes@ == enc_collection(v) && encodable_collection(v);
                        lemma_stream_feed(
                            bytes@,
                            0,
                            j as int,
                            enc_collection(v),
                            Seq::<u8>::empty(),
                        );
                        lemma_enc_collection_prefix(
                            x,
                            v,
                            bytes@.skip(j as int),
                            Seq::<u8>::empty(),
                        );
                        assert(bytes@.skip(j as int) =~= Seq::<u8>::empty());
                        assert(false);
                    }
                }
                None
            }
        },
        None => None,
    }
}

} // verus!
