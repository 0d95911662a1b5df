//! The live-reload WebSocket: the opening handshake (SHA-1 and base64 of the
//! client's key), building frames, and reading frames from received bytes.
use vstd::prelude::*;
use crate::text::{chars_of, push_str, string_of};

verus! {

// ---------------------------------------------------------------------------
// SHA-1
pub open spec fn rotl(x: u32, n: u32) -> u32 {
    (x << n) | (x >> (32u32 - n))
}

pub open spec fn wadd(x: u32, y: u32) -> u32 {
    vstd::wrapping::u32_specs::wrapping_add(x, y)
}

/// How many zero bytes follow the `0x80` byte so that the length becomes 56
/// modulo 64.
pub open spec fn pad_zeros(len: int) -> int {
    (119 - len % 64) % 64
}

/// The eight big-endian bytes of a 64-bit number.
pub open spec fn be64(x: u64) -> Seq<u8> {
    seq![
        (x >> 56u64) as u8,
        (x >> 48u64) as u8,
        (x >> 40u64) as u8,
        (x >> 32u64) as u8,
        (x >> 24u64) as u8,
        (x >> 16u64) as u8,
        (x >> 8u64) as u8,
        x as u8,
    ]
}

/// The four big-endian bytes of a 32-bit number.
pub open spec fn be32_bytes(x: u32) -> Seq<u8> {
    seq![(x >> 24u32) as u8, (x >> 16u32) as u8, (x >> 8u32) as u8, x as u8]
}

/// The message padded to whole 64-byte blocks, ending in its bit length.
pub open spec fn sha1_pad(m: Seq<u8>) -> Seq<u8> {
    m.push(0x80u8) + Seq::new(pad_zeros(m.len() as int) as nat, |i: int| 0u8) + be64(
        (m.len() * 8) as u64,
    )
}

/// The big-endian word at byte `i` of a block.
pub open spec fn word_at(blk: Seq<u8>, i: int) -> u32 {
    ((blk[i] as u32) << 24u32) | ((blk[i + 1] as u32) << 16u32) | ((blk[i + 2] as u32) << 8u32)
        | (blk[i + 3] as u32)
}

/// The message schedule of a block.
pub open spec fn sched(blk: Seq<u8>, i: int) -> u32
    decreases i,
{
    if i < 16 {
        word_at(blk, 4 * i)
    } else {
        rotl(sched(blk, i - 3) ^ sched(blk, i - 8) ^ sched(blk, i - 14) ^ sched(blk, i - 16), 1)
    }
}

#[derive(Clone, Copy)]
pub struct Sha1State {
    pub a: u32,
    pub b: u32,
    pub c: u32,
    pub d: u32,
    pub e: u32,
}

pub open spec fn round_f(i: int, b: u32, c: u32, d: u32) -> u32 {
    if i < 20 {
        (b & c) | ((!b) & d)
    } else if i < 40 {
        b ^ c ^ d
    } else if i < 60 {
        (b & c) | (b & d) | (c & d)
    } else {
        b ^ c ^ d
    }
}

pub open spec fn round_k(i: int) -> u32 {
    if i < 20 {
        0x5A827999u32
    } else if i < 40 {
        0x6ED9EBA1u32
    } else if i < 60 {
        0x8F1BBCDCu32
    } else {
        0xCA62C1D6u32
    }
}

/// One of the eighty rounds.
pub open spec fn round(s: Sha1State, i: int, wi: u32) -> Sha1State {
    let temp = wadd(
        wadd(wadd(wadd(rotl(s.a, 5), round_f(i, s.b, s.c, s.d)), s.e), round_k(i)),
        wi,
    );
    Sha1State { a: temp, b: s.a, c: rotl(s.b, 30), d: s.c, e: s.d }
}

/// The rounds from the `i`-th on.
pub open spec fn rounds(blk: Seq<u8>, s: Sha1State, i: int) -> Sha1State
    decreases 80 - i,
{
    if i < 0 || i >= 80 {
        s
    } else {
        rounds(blk, round(s, i, sched(blk, i)), i + 1)
    }
}

/// One block folded into the hash state.
pub open spec fn compress(h: Sha1State, blk: Seq<u8>) -> Sha1State {
    let r = rounds(blk, h, 0);
    Sha1State {
        a: wadd(h.a, r.a),
        b: wadd(h.b, r.b),
        c: wadd(h.c, r.c),
        d: wadd(h.d, r.d),
        e: wadd(h.e, r.e),
    }
}

pub open spec fn sha1_init() -> Sha1State {
    Sha1State {
        a: 0x67452301u32,
        b: 0xEFCDAB89u32,
        c: 0x98BADCFEu32,
        d: 0x10325476u32,
        e: 0xC3D2E1F0u32,
    }
}

/// The blocks from the `k`-th on, folded into the state.
pub open spec fn sha1_blocks(data: Seq<u8>, h: Sha1State, k: int) -> Sha1State
    decreases data.len() - 64 * k,
{
    if k < 0 || 64 * k + 64 > data.len() {
        h
    } else {
        sha1_blocks(data, compress(h, data.subrange(64 * k, 64 * k + 64)), k + 1)
    }
}

pub open spec fn digest_of(h: Sha1State) -> Seq<u8> {
    be32_bytes(h.a) + be32_bytes(h.b) + be32_bytes(h.c) + be32_bytes(h.d) + be32_bytes(h.e)
}

/// The SHA-1 digest of a message.
pub open spec fn sha1(m: Seq<u8>) -> Seq<u8> {
    digest_of(sha1_blocks(sha1_pad(m), sha1_init(), 0))
}

// ---------------------------------------------------------------------------
// base64
/// The character for a 6-bit value.
pub open spec fn b64_char(v: u32) -> char {
    if v < 26 {
        (65 + v) as char
    } else if v < 52 {
        (97 + v - 26) as char
    } else if v < 62 {
        (48 + v - 52) as char
    } else if v == 62 {
        '+'
    } else {
        '/'
    }
}

/// The four characters for up to three bytes, `=` standing for the missing
/// ones.
pub open spec fn b64_group(chunk: Seq<u8>) -> Seq<char> {
    let c1: u32 = if chunk.len() > 1 { chunk[1] as u32 } else { 0 };
    let c2: u32 = if chunk.len() > 2 { chunk[2] as u32 } else { 0 };
    let n: u32 = ((chunk[0] as u32) << 16u32) | (c1 << 8u32) | c2;
    seq![
        b64_char((n >> 18u32) & 63),
        b64_char((n >> 12u32) & 63),
        if chunk.len() > 1 { b64_char((n >> 6u32) & 63) } else { '=' },
        if chunk.len() > 2 { b64_char(n & 63) } else { '=' },
    ]
}

/// Standard base64 with padding, from the `k`-th group of three bytes on.
pub open spec fn base64_go(input: Seq<u8>, k: int) -> Seq<char>
    decreases input.len() + 3 - 3 * k,
{
    if k < 0 || 3 * k >= input.len() {
        Seq::empty()
    } else {
        let end = if 3 * k + 3 <= input.len() {
            3 * k + 3
        } else {
            input.len() as int
        };
        b64_group(input.subrange(3 * k, end)) + base64_go(input, k + 1)
    }
}

pub open spec fn base64_of(input: Seq<u8>) -> Seq<char> {
    base64_go(input, 0)
}

// ---------------------------------------------------------------------------
// the handshake
pub open spec fn ws_guid() -> Seq<char> {
    "258EAFA5-E914-47DA-95CA-C5AB0DC85B11"@
}

/// `Sec-WebSocket-Accept` for a client's key: base64 of the SHA-1 of the key
/// followed by the protocol's GUID.
pub open spec fn accept_of(key: Seq<char>) -> Seq<char> {
    base64_of(sha1(vstd::utf8::encode_utf8(key) + vstd::utf8::encode_utf8(ws_guid())))
}

pub open spec fn handshake_text(accept: Seq<char>) -> Seq<char> {
    "HTTP/1.1 101 Switching Protocols\r\nUpgrade: websocket\r\nConnection: Upgrade\r\nSec-WebSocket-Accept: "@
        + accept + "\r\n\r\n"@
}

// ---------------------------------------------------------------------------
// frames
/// The largest payload a received frame may carry.
pub const MAX_FRAME: u64 = 1048576;

/// A final frame with the given opcode and an unmasked payload.
pub open spec fn frame_of(opcode: u8, payload: Seq<u8>) -> Seq<u8> {
    let len = payload.len();
    let head: Seq<u8> = if len < 126 {
        seq![0x80u8 | opcode, len as u8]
    } else if len <= 0xFFFF {
        seq![0x80u8 | opcode, 126u8, ((len as u16) >> 8u16) as u8, (len as u16) as u8]
    } else {
        seq![0x80u8 | opcode, 127u8] + be64(len as u64)
    };
    head + payload
}

} // verus!

verus! {

fn rotl_exec(x: u32, n: u32) -> (r: u32)
    requires
        0 < n < 32,
    ensures
        r == rotl(x, n),
{
    (x << n) | (x >> (32 - n))
}

fn round_exec(s: Sha1State, i: usize, wi: u32) -> (r: Sha1State)
    requires
        i < 80,
    ensures
        r == round(s, i as int, wi),
{
    let f: u32;
    let k: u32;
    if i < 20 {
        f = (s.b & s.c) | ((!s.b) & s.d);
        k = 0x5A827999;
    } else if i < 40 {
        f = s.b ^ s.c ^ s.d;
        k = 0x6ED9EBA1;
    } else if i < 60 {
        f = (s.b & s.c) | (s.b & s.d) | (s.c & s.d);
        k = 0x8F1BBCDC;
    } else {
        f = s.b ^ s.c ^ s.d;
        k = 0xCA62C1D6;
    }
    let temp = rotl_exec(s.a, 5).wrapping_add(f).wrapping_add(s.e).wrapping_add(k).wrapping_add(wi);
    Sha1State { a: temp, b: s.a, c: rotl_exec(s.b, 30), d: s.c, e: s.d }
}

fn word_exec(blk: &Vec<u8>, i: usize) -> (r: u32)
    requires
        i + 4 <= blk@.len() <= 64,
    ensures
        r == word_at(blk@, i as int),
{
    ((blk[i] as u32) << 24) | ((blk[i + 1] as u32) << 16) | ((blk[i + 2] as u32) << 8) | (blk[i
        + 3] as u32)
}

/// One 64-byte block folded into the hash state.
fn compress_exec(h: Sha1State, blk: &Vec<u8>) -> (r: Sha1State)
    requires
        blk@.len() == 64,
    ensures
        r == compress(h, blk@),
{
    let mut w: Vec<u32> = Vec::new();
    let mut j: usize = 0;
    while j < 80
        invariant
            j <= 80,
            blk@.len() == 64,
            w@.len() == j,
            forall|t: int| 0 <= t < j ==> w@[t] == sched(blk@, t),
        decreases 80 - j,
    {
        let x = if j < 16 {
            word_exec(blk, 4 * j)
        } else {
            rotl_exec(w[j - 3] ^ w[j - 8] ^ w[j - 14] ^ w[j - 16], 1)
        };
        w.push(x);
        j = j + 1;
    }
    let mut s = h;
    let mut i: usize = 0;
    while i < 80
        invariant
            i <= 80,
            w@.len() == 80,
            forall|t: int| 0 <= t < 80 ==> w@[t] == sched(blk@, t),
            rounds(blk@, h, 0) == rounds(blk@, s, i as int),
        decreases 80 - i,
    {
        s = round_exec(s, i, w[i]);
        i = i + 1;
    }
    Sha1State {
        a: h.a.wrapping_add(s.a),
        b: h.b.wrapping_add(s.b),
        c: h.c.wrapping_add(s.c),
        d: h.d.wrapping_add(s.d),
        e: h.e.wrapping_add(s.e),
    }
}

fn push_be32(out: &mut Vec<u8>, x: u32)
    ensures
        final(out)@ == old(out)@ + be32_bytes(x),
{
    out.push((x >> 24) as u8);
    out.push((x >> 16) as u8);
    out.push((x >> 8) as u8);
    out.push(x as u8);
    assert(out@ =~= old(out)@ + be32_bytes(x));
}

/// The SHA-1 digest of a message.
#[verifier::spinoff_prover]
#[verifier::rlimit(30)]
fn sha1_exec(m: &Vec<u8>) -> (r: Vec<u8>)
    requires
        m@.len() * 8 < 0x1_0000_0000_0000_0000,
        m@.len() + 256 < usize::MAX,
    ensures
        r@ == sha1(m@),
{
    let n = m.len();
    let mut data: Vec<u8> = Vec::new();
    let mut i: usize = 0;
    while i < n
        invariant
            n == m@.len(),
            i <= n,
            data@ == m@.take(i as int),
        decreases n - i,
    {
        data.push(m[i]);
        i = i + 1;
        assert(data@ =~= m@.take(i as int));
    }
    assert(m@.take(n as int) =~= m@);
    data.push(0x80);
    let z: usize = (119 - n % 64) % 64;
    let mut j: usize = 0;
    while j < z
        invariant
            j <= z,
            z == pad_zeros(n as int),
            n == m@.len(),
            data@ == m@.push(0x80u8) + Seq::new(j as nat, |t: int| 0u8),
        decreases z - j,
    {
        data.push(0);
        j = j + 1;
        assert(data@ =~= m@.push(0x80u8) + Seq::new(j as nat, |t: int| 0u8));
    }
    let bits: u64 = (n as u64) * 8;
    data.push((bits >> 56) as u8);
    data.push((bits >> 48) as u8);
    data.push((bits >> 40) as u8);
    data.push((bits >> 32) as u8);
    data.push((bits >> 24) as u8);
    data.push((bits >> 16) as u8);
    data.push((bits >> 8) as u8);
    data.push(bits as u8);
    assert(data@ =~= sha1_pad(m@));
    assert(data@.len() % 64 == 0);
    let mut h = Sha1State {
        a: 0x67452301,
        b: 0xEFCDAB89,
        c: 0x98BADCFE,
        d: 0x10325476,
        e: 0xC3D2E1F0,
    };
    let ghost d0 = data@;
    assert(d0.len() == n + 9 + z);
    assert(z < 64);
    assert(n == m@.len());
    assert(n + 256 < usize::MAX);
    assert(d0.len() + 64 < usize::MAX);
    let mut k: usize = 0;
    while 64 * k + 64 <= data.len()
        invariant
            data@ == d0,
            d0.len() + 64 < usize::MAX,
            64 * k <= d0.len(),
            sha1_blocks(d0, sha1_init(), 0) == sha1_blocks(d0, h, k as int),
        decreases d0.len() - 64 * k,
    {
        let mut blk: Vec<u8> = Vec::new();
        let mut t: usize = 0;
        while t < 64
            invariant
                t <= 64,
                data@ == d0,
                d0.len() + 64 < usize::MAX,
                64 * k + 64 <= d0.len(),
                blk@ == d0.subrange(64 * k, 64 * k + t),
            decreases 64 - t,
        {
            blk.push(data[64 * k + t]);
            t = t + 1;
            assert(blk@ =~= d0.subrange(64 * k, 64 * k + t));
        }
        h = compress_exec(h, &blk);
        k = k + 1;
    }
    let mut out: Vec<u8> = Vec::new();
    push_be32(&mut out, h.a);
    push_be32(&mut out, h.b);
    push_be32(&mut out, h.c);
    push_be32(&mut out, h.d);
    push_be32(&mut out, h.e);
    assert(out@ =~= digest_of(h));
    out
}

fn b64_char_exec(v: u32) -> (c: char)
    requires
        v < 64,
    ensures
        c == b64_char(v),
{
    let b: u8 = if v < 26 {
        (65 + v) as u8
    } else if v < 52 {
        (97 + v - 26) as u8
    } else if v < 62 {
        (48 + v - 52) as u8
    } else if v == 62 {
        43
    } else {
        47
    };
    b as char
}

/// Standard base64 with padding.
fn base64(input: &Vec<u8>) -> (r: Vec<char>)
    requires
        input@.len() + 3 < usize::MAX,
    ensures
        r@ == base64_of(input@),
{
    let n = input.len();
    let mut out: Vec<char> = Vec::new();
    let mut k: usize = 0;
    while 3 * k < n
        invariant
            n == input@.len(),
            n + 3 < usize::MAX,
            3 * k <= n + 2,
            base64_of(input@) == out@ + base64_go(input@, k as int),
        decreases n + 3 - 3 * k,
    {
        let start = 3 * k;
        let end = if start + 3 <= n { start + 3 } else { n };
        let ghost chunk = input@.subrange(start as int, end as int);
        let c0 = input[start] as u32;
        let c1: u32 = if end - start > 1 { input[start + 1] as u32 } else { 0 };
        let c2: u32 = if end - start > 2 { input[start + 2] as u32 } else { 0 };
        let v: u32 = (c0 << 16) | (c1 << 8) | c2;
        assert((v >> 18u32) & 63 < 64) by (bit_vector);
        assert((v >> 12u32) & 63 < 64) by (bit_vector);
        assert((v >> 6u32) & 63 < 64) by (bit_vector);
        assert(v & 63 < 64) by (bit_vector);
        let ghost before = out@;
        out.push(b64_char_exec((v >> 18) & 63));
        out.push(b64_char_exec((v >> 12) & 63));
        out.push(if end - start > 1 { b64_char_exec((v >> 6) & 63) } else { '=' });
        out.push(if end - start > 2 { b64_char_exec(v & 63) } else { '=' });
        assert(chunk[0] == input@[start as int]);
        assert(end - start > 1 ==> chunk[1] == input@[start + 1]);
        assert(end - start > 2 ==> chunk[2] == input@[start + 2]);
        assert(out@ =~= before + b64_group(chunk));
        k = k + 1;
    }
    assert(base64_go(input@, k as int) =~= Seq::<char>::empty());
    assert(out@ =~= out@ + Seq::<char>::empty());
    out
}

/// UTF-8 takes at most four bytes per character.
proof fn lemma_encode_len(s: Seq<char>)
    ensures
        vstd::utf8::encode_utf8(s).len() <= 4 * s.len(),
    decreases s.len(),
{
    if s.len() > 0 {
        lemma_encode_len(s.drop_first());
        assert(vstd::utf8::encode_scalar(s[0] as u32).len() <= 4);
    }
}

/// `Sec-WebSocket-Accept` for a client's key.
pub fn accept(key: &str) -> (r: String)
    requires
        (4 * key@.len() + 36) * 8 < 0x1_0000_0000_0000_0000,
        4 * key@.len() + 300 < usize::MAX,
    ensures
        r@ == accept_of(key@),
        r@.len() == 28,
        r@[27] == '=',
        forall|i: int| 0 <= i < 27 ==> b64_alpha(#[trigger] r@[i]),
{
    proof {
        lemma_encode_len(key@);
        lemma_accept_shape(key@);
    }
    let kb = key.as_bytes();
    let gb = "258EAFA5-E914-47DA-95CA-C5AB0DC85B11".as_bytes();
    let mut data: Vec<u8> = Vec::new();
    let mut i: usize = 0;
    while i < kb.len()
        invariant
            i <= kb@.len(),
            data@ == kb@.take(i as int),
        decreases kb@.len() - i,
    {
        data.push(kb[i]);
        i = i + 1;
        assert(data@ =~= kb@.take(i as int));
    }
    assert(kb@.take(kb@.len() as int) =~= kb@);
    let ghost dk = data@;
    let mut j: usize = 0;
    while j < gb.len()
        invariant
            j <= gb@.len(),
            data@ == dk + gb@.take(j as int),
        decreases gb@.len() - j,
    {
        data.push(gb[j]);
        j = j + 1;
        assert(data@ =~= dk + gb@.take(j as int));
    }
    assert(gb@.take(gb@.len() as int) =~= gb@);
    proof {
        reveal_strlit("258EAFA5-E914-47DA-95CA-C5AB0DC85B11");
        assert(gb@.len() == 36) by {
            vstd::string::is_ascii_spec_bytes("258EAFA5-E914-47DA-95CA-C5AB0DC85B11");
        }
    }
    let d = sha1_exec(&data);
    let s = base64(&d);
    string_of(&s)
}

} // verus!

verus! {

// ---------------------------------------------------------------------------
// building frames
/// A final frame with the given opcode and an unmasked payload.
pub fn frame(opcode: u8, payload: &[u8]) -> (r: Vec<u8>)
    ensures
        r@ == frame_of(opcode, payload@),
{
    let len = payload.len() as u64;
    let mut out: Vec<u8> = vec![0x80 | opcode];
    if len < 126 {
        out.push(len as u8);
    } else if len <= 0xFFFF {
        let l = len as u16;
        out.push(126);
        out.push((l >> 8) as u8);
        out.push(l as u8);
    } else {
        out.push(127);
        out.push((len >> 56) as u8);
        out.push((len >> 48) as u8);
        out.push((len >> 40) as u8);
        out.push((len >> 32) as u8);
        out.push((len >> 24) as u8);
        out.push((len >> 16) as u8);
        out.push((len >> 8) as u8);
        out.push(len as u8);
    }
    let ghost head = out@;
    let mut i: usize = 0;
    while i < payload.len()
        invariant
            i <= payload@.len(),
            out@ == head + payload@.take(i as int),
        decreases payload@.len() - i,
    {
        out.push(payload[i]);
        i = i + 1;
        assert(out@ =~= head + payload@.take(i as int));
    }
    assert(payload@.take(payload@.len() as int) =~= payload@);
    assert(out@ =~= frame_of(opcode, payload@));
    out
}

/// A text frame.
pub fn text_frame(payload: &str) -> (r: Vec<u8>)
    ensures
        r@ == frame_of(1, vstd::utf8::encode_utf8(payload@)),
{
    frame(0x1, payload.as_bytes())
}

/// A pong frame echoing a ping's payload.
pub fn pong_frame(payload: &[u8]) -> (r: Vec<u8>)
    ensures
        r@ == frame_of(0xA, payload@),
{
    frame(0xA, payload)
}

/// A close frame with a status code.
pub fn close_frame(code: u16) -> (r: Vec<u8>)
    ensures
        r@ == frame_of(0x8, seq![(code >> 8u16) as u8, code as u8]),
{
    let b: [u8; 2] = [(code >> 8) as u8, code as u8];
    let r = frame(0x8, &b);
    assert(b@ =~= seq![(code >> 8u16) as u8, code as u8]);
    r
}

/// The server's answer to an opening handshake.
pub fn handshake_response(key: &str) -> (r: Vec<u8>)
    requires
        (4 * key@.len() + 36) * 8 < 0x1_0000_0000_0000_0000,
        4 * key@.len() + 300 < usize::MAX,
    ensures
        r@ == vstd::utf8::encode_utf8(handshake_text(accept_of(key@))),
{
    let a = accept(key);
    let mut m = chars_of(
        "HTTP/1.1 101 Switching Protocols\r\nUpgrade: websocket\r\nConnection: Upgrade\r\nSec-WebSocket-Accept: ",
    );
    push_str(&mut m, a.as_str());
    push_str(&mut m, "\r\n\r\n");
    let s = string_of(&m);
    crate::text::utf8_bytes(s.as_str())
}

// ---------------------------------------------------------------------------
// the client's key
/// The value of a `Sec-WebSocket-Key` header line.
pub open spec fn key_line(line: Seq<char>) -> Option<Seq<char>> {
    let i = crate::lexer::first_of(line, ':') as int;
    if i < line.len() && crate::text::eq_ascii_case(
        crate::text::trim(line.take(i)),
        "Sec-WebSocket-Key"@,
    ) {
        Some(crate::text::trim(line.skip(i + 1)))
    } else {
        None
    }
}

/// The first header line, from the `k`-th on, that carries the key.
pub open spec fn key_go(lines: Seq<Seq<char>>, k: int) -> Option<Seq<char>>
    decreases lines.len() - k,
{
    if k < 0 || k >= lines.len() {
        None
    } else {
        match key_line(lines[k]) {
            Some(v) => Some(v),
            None => key_go(lines, k + 1),
        }
    }
}

pub open spec fn extract_key_of(head: Seq<char>) -> Option<Seq<char>> {
    key_go(crate::text::std_lines(head), 0)
}

proof fn lemma_key_go(lines: Seq<Seq<char>>, k: int)
    requires
        0 <= k,
    ensures
        key_go(lines, k) is Some <==> exists|j: int| k <= j < lines.len() && (#[trigger] key_line(lines[j])) is Some,
        key_go(lines, k) matches Some(v) ==> exists|j: int|
            k <= j < lines.len() && #[trigger] key_line(lines[j]) == Some(v) && forall|i: int|
                k <= i < j ==> (#[trigger] key_line(lines[i])) is None,
    decreases lines.len() - k,
{
    if k < lines.len() {
        lemma_key_go(lines, k + 1);
        if key_line(lines[k]) is None {
            if exists|j: int| k <= j < lines.len() && (#[trigger] key_line(lines[j])) is Some {
                let j = choose|j: int| k <= j < lines.len() && (#[trigger] key_line(lines[j])) is Some;
                assert(j != k);
                assert(k + 1 <= j);
            }
            if key_go(lines, k) is Some {
                let v = key_go(lines, k)->Some_0;
                let j = choose|j: int|
                    k + 1 <= j < lines.len() && #[trigger] key_line(lines[j]) == Some(v) && forall|i: int|
                        k + 1 <= i < j ==> (#[trigger] key_line(lines[i])) is None;
                assert forall|i: int| k <= i < j implies (#[trigger] key_line(lines[i])) is None by {
                    if i > k {
                    }
                }
            }
        }
    }
}

/// The `Sec-WebSocket-Key` of a request head, if it has one.
pub fn extract_key(head: &str) -> (r: Option<String>)
    ensures
        crate::text::opt_chars(r) == extract_key_of(head@),
        r matches Some(k) ==> k@.len() <= head@.len(),
        r is Some <==> exists|j: int|
            0 <= j < crate::text::std_lines(head@).len() && (#[trigger] key_line(
                crate::text::std_lines(head@)[j],
            )) is Some,
        r matches Some(v) ==> exists|j: int|
            0 <= j < crate::text::std_lines(head@).len() && #[trigger] key_line(
                crate::text::std_lines(head@)[j],
            ) == Some(v@) && forall|i: int|
                0 <= i < j ==> (#[trigger] key_line(crate::text::std_lines(head@)[i])) is None,
{
    proof {
        lemma_key_go(crate::text::std_lines(head@), 0);
    }
    let hc = chars_of(head);
    let lines = crate::text::std_lines_exec(&hc);
    let name = chars_of("Sec-WebSocket-Key");
    let ghost ls = crate::text::std_lines(head@);
    let mut k: usize = 0;
    while k < lines.len()
        invariant
            k <= lines@.len(),
            ls == crate::text::vv_chars(lines@),
            ls == crate::text::std_lines(head@),
            hc@ == head@,
            forall|j: int| 0 <= j < lines@.len() ==> #[trigger] lines@[j]@.len() <= head@.len(),
            name@ == "Sec-WebSocket-Key"@,
            key_go(ls, 0) == key_go(ls, k as int),
        decreases lines@.len() - k,
    {
        let line = &lines[k];
        assert(ls[k as int] == line@);
        let i = crate::lexer::find_char(line, ':');
        if i < line.len() {
            let before = crate::text::slice_of(line, 0, i);
            let kt = crate::text::trimmed(&before);
            assert(before@ =~= line@.take(i as int));
            if crate::text::eq_ascii_case_exec(&kt, &name) {
                let after = crate::text::slice_of(line, i + 1, line.len());
                assert(after@ =~= line@.skip(i + 1));
                let v = crate::text::trimmed(&after);
                assert(crate::lexer::first_of(line@, ':') == i);
                assert(key_line(line@) == Some(v@));
                assert(key_go(ls, k as int) == Some(v@));
                proof {
                    lemma_key_go(ls, 0);
                }
                return Some(string_of(&v));
            }
        }
        k = k + 1;
    }
    None
}

// ---------------------------------------------------------------------------
// reading frames
#[derive(Debug)]
pub enum Frame {
    Text(Vec<u8>),
    Binary(Vec<u8>),
    Continuation,
    Ping(Vec<u8>),
    Pong(Vec<u8>),
    Close(u16),
}

pub enum FrameM {
    Text(Seq<u8>),
    Binary(Seq<u8>),
    Continuation,
    Ping(Seq<u8>),
    Pong(Seq<u8>),
    Close(u16),
}

impl View for Frame {
    type V = FrameM;

    open spec fn view(&self) -> FrameM {
        match self {
            Frame::Text(p) => FrameM::Text(p@),
            Frame::Binary(p) => FrameM::Binary(p@),
            Frame::Continuation => FrameM::Continuation,
            Frame::Ping(p) => FrameM::Ping(p@),
            Frame::Pong(p) => FrameM::Pong(p@),
            Frame::Close(c) => FrameM::Close(*c),
        }
    }
}

/// What the bytes received so far hold: not yet a whole frame, a frame and
/// how many bytes it took, or an error.
#[derive(Debug)]
pub enum FrameStep {
    NeedMore,
    Ready(Frame, usize),
    Invalid(String),
}

pub enum FrameStepM {
    NeedMore,
    Ready(FrameM, nat),
    Invalid(Seq<char>),
}

impl View for FrameStep {
    type V = FrameStepM;

    open spec fn view(&self) -> FrameStepM {
        match self {
            FrameStep::NeedMore => FrameStepM::NeedMore,
            FrameStep::Ready(f, n) => FrameStepM::Ready(f@, *n as nat),
            FrameStep::Invalid(m) => FrameStepM::Invalid(m@),
        }
    }
}

pub open spec fn be16_at(b: Seq<u8>, i: int) -> u16 {
    ((b[i] as u16) << 8u16) | (b[i + 1] as u16)
}

pub open spec fn be64_at(b: Seq<u8>, i: int) -> u64 {
    ((b[i] as u64) << 56u64) | ((b[i + 1] as u64) << 48u64) | ((b[i + 2] as u64) << 40u64) | ((b[i
        + 3] as u64) << 32u64) | ((b[i + 4] as u64) << 24u64) | ((b[i + 5] as u64) << 16u64) | ((b[i
        + 6] as u64) << 8u64) | (b[i + 7] as u64)
}

/// The payload length and the header size, once enough bytes are there.
pub open spec fn frame_len(b: Seq<u8>) -> Option<(int, int)> {
    let code = b[1] & 0x7Fu8;
    if code == 126 {
        if b.len() < 4 {
            None
        } else {
            Some((be16_at(b, 2) as int, 4))
        }
    } else if code == 127 {
        if b.len() < 10 {
            None
        } else {
            Some((be64_at(b, 2) as int, 10))
        }
    } else {
        Some((code as int, 2))
    }
}

/// The payload, unmasked when the frame is masked.
pub open spec fn unmasked(b: Seq<u8>, start: int, len: int, masked: bool) -> Seq<u8> {
    if masked {
        Seq::new(len as nat, |i: int| b[start + 4 + i] ^ b[start + i % 4])
    } else {
        b.subrange(start, start + len)
    }
}

pub open spec fn frame_kind(opcode: u8, p: Seq<u8>) -> Option<FrameM> {
    if opcode == 8 {
        Some(FrameM::Close(if p.len() >= 2 { be16_at(p, 0) } else { 1000u16 }))
    } else if opcode == 9 {
        Some(FrameM::Ping(p))
    } else if opcode == 10 {
        Some(FrameM::Pong(p))
    } else if opcode == 1 {
        Some(FrameM::Text(p))
    } else if opcode == 2 {
        Some(FrameM::Binary(p))
    } else if opcode == 0 {
        Some(FrameM::Continuation)
    } else {
        None
    }
}

/// Reading one frame from the start of the received bytes.
pub open spec fn decode_of(b: Seq<u8>) -> FrameStepM {
    if b.len() < 2 {
        FrameStepM::NeedMore
    } else {
        match frame_len(b) {
            None => FrameStepM::NeedMore,
            Some((len, hs)) => if len > MAX_FRAME {
                FrameStepM::Invalid("websocket frame too large"@)
            } else {
                let masked = b[1] & 0x80u8 != 0;
                let ms: int = if masked { 4 } else { 0 };
                if b.len() < hs + ms + len {
                    FrameStepM::NeedMore
                } else {
                    let opcode = b[0] & 0x0Fu8;
                    match frame_kind(opcode, unmasked(b, hs, len, masked)) {
                        Some(f) => FrameStepM::Ready(f, (hs + ms + len) as nat),
                        None => FrameStepM::Invalid(
                            "unsupported opcode "@ + crate::text::nat_text(opcode as nat),
                        ),
                    }
                }
            },
        }
    }
}

} // verus!

verus! {

/// Reads one frame from the start of the bytes received so far.
pub fn read_frame(b: &[u8]) -> (r: FrameStep)
    ensures
        r@ == decode_of(b@),
{
    let n = b.len();
    if n < 2 {
        return FrameStep::NeedMore;
    }
    let code = b[1] & 0x7F;
    let len: u64;
    let hs: usize;
    if code == 126 {
        if n < 4 {
            return FrameStep::NeedMore;
        }
        let l16: u16 = ((b[2] as u16) << 8) | (b[3] as u16);
        len = l16 as u64;
        hs = 4;
    } else if code == 127 {
        if n < 10 {
            return FrameStep::NeedMore;
        }
        len = ((b[2] as u64) << 56) | ((b[3] as u64) << 48) | ((b[4] as u64) << 40) | ((b[5] as u64)
            << 32) | ((b[6] as u64) << 24) | ((b[7] as u64) << 16) | ((b[8] as u64) << 8) | (b[9] as u64);
        hs = 10;
    } else {
        len = code as u64;
        hs = 2;
    }
    assert(frame_len(b@) == Some((len as int, hs as int)));
    if len > MAX_FRAME {
        let m = chars_of("websocket frame too large");
        return FrameStep::Invalid(string_of(&m));
    }
    let masked = b[1] & 0x80 != 0;
    let ms: usize = if masked { 4 } else { 0 };
    let l = len as usize;
    if n < hs + ms + l {
        return FrameStep::NeedMore;
    }
    let mut p: Vec<u8> = Vec::new();
    let mut i: usize = 0;
    while i < l
        invariant
            i <= l,
            n == b@.len(),
            hs + ms + l <= n,
            ms == (if masked { 4usize } else { 0usize }),
            p@ == unmasked(b@, hs as int, l as int, masked).take(i as int),
        decreases l - i,
    {
        let x = if masked {
            b[hs + 4 + i] ^ b[hs + i % 4]
        } else {
            b[hs + i]
        };
        p.push(x);
        i = i + 1;
        assert(p@ =~= unmasked(b@, hs as int, l as int, masked).take(i as int));
    }
    assert(unmasked(b@, hs as int, l as int, masked).take(l as int) =~= unmasked(
        b@,
        hs as int,
        l as int,
        masked,
    ));
    let opcode = b[0] & 0x0F;
    let f = if opcode == 8 {
        let c: u16 = if l >= 2 {
            ((p[0] as u16) << 8) | (p[1] as u16)
        } else {
            1000
        };
        Frame::Close(c)
    } else if opcode == 9 {
        Frame::Ping(p)
    } else if opcode == 10 {
        Frame::Pong(p)
    } else if opcode == 1 {
        Frame::Text(p)
    } else if opcode == 2 {
        Frame::Binary(p)
    } else if opcode == 0 {
        Frame::Continuation
    } else {
        let mut m = chars_of("unsupported opcode ");
        let t = crate::text::usize_text(opcode as usize);
        crate::text::push_all(&mut m, &t);
        return FrameStep::Invalid(string_of(&m));
    };
    FrameStep::Ready(f, hs + ms + l)
}

/// What the server sends back for a received frame, and whether the
/// connection ends.
#[derive(Debug)]
pub enum WsReply {
    Nothing,
    Send(Vec<u8>),
    SendAndClose(Vec<u8>),
}

/// A ping is answered by a pong with its payload; a close by a normal
/// close; anything else by nothing.
pub fn ws_reply(f: &Frame) -> (r: WsReply)
    ensures
        match f@ {
            FrameM::Ping(p) => r matches WsReply::Send(x) && x@ == frame_of(0xA, p),
            FrameM::Close(_) => r matches WsReply::SendAndClose(x) && x@ == frame_of(
                0x8,
                seq![3u8, 232u8],
            ),
            _ => r is Nothing,
        },
{
    match f {
        Frame::Ping(p) => WsReply::Send(pong_frame(p)),
        Frame::Close(_) => {
            let c = close_frame(1000);
            assert((1000u16 >> 8u16) as u8 == 3u8) by (bit_vector);
            assert(1000u16 as u8 == 232u8) by (bit_vector);
            WsReply::SendAndClose(c)
        },
        _ => WsReply::Nothing,
    }
}

/// Whether a request head asks for a WebSocket upgrade.
pub open spec fn wants_upgrade(head: Seq<char>) -> bool {
    crate::compiler::find_sub(head.map_values(|c: char| crate::text::ascii_lower(c)), "upgrade: websocket"@, 0) is Some
}

/// The answer to a request for `/__dreamfish__ws`: the handshake, or `None`
/// for a bad request.
pub fn upgrade_reply(head: &str) -> (r: Option<Vec<u8>>)
    requires
        (4 * head@.len() + 36) * 8 < 0x1_0000_0000_0000_0000,
        4 * head@.len() + 300 < usize::MAX,
    ensures
        match r {
            Some(x) => wants_upgrade(head@) && match extract_key_of(head@) {
                Some(k) => x@ == vstd::utf8::encode_utf8(handshake_text(accept_of(k))),
                None => false,
            },
            None => !wants_upgrade(head@) || extract_key_of(head@) is None,
        },
{
    let hc = chars_of(head);
    let mut lower: Vec<char> = Vec::new();
    let mut i: usize = 0;
    while i < hc.len()
        invariant
            i <= hc@.len(),
            hc@ == head@,
            lower@ == head@.map_values(|c: char| crate::text::ascii_lower(c)).take(i as int),
        decreases hc@.len() - i,
    {
        lower.push(crate::text::ascii_lower_exec(hc[i]));
        i = i + 1;
        assert(lower@ =~= head@.map_values(|c: char| crate::text::ascii_lower(c)).take(i as int));
    }
    assert(lower@ =~= head@.map_values(|c: char| crate::text::ascii_lower(c)));
    let pat = chars_of("upgrade: websocket");
    if crate::compiler::find_sub_exec(&lower, &pat).is_none() {
        return None;
    }
    match extract_key(head) {
        None => None,
        Some(k) => {
            Some(handshake_response(k.as_str()))
        },
    }
}

} // verus!

verus! {

// ---------------------------------------------------------------------------
// messages to the page
pub open spec fn hello_text(version: u64) -> Seq<char> {
    "{\"type\":\"hello\",\"version\":"@ + crate::text::nat_text(version as nat) + "}"@
}

pub open spec fn reload_text(version: u64) -> Seq<char> {
    "{\"type\":\"reload\",\"version\":"@ + crate::text::nat_text(version as nat) + "}"@
}

/// What a page receives when it connects.
pub fn hello_message(version: u64) -> (r: String)
    ensures
        r@ == hello_text(version),
{
    let mut m = chars_of("{\"type\":\"hello\",\"version\":");
    let t = crate::text::u64_text(version);
    crate::text::push_all(&mut m, &t);
    push_str(&mut m, "}");
    string_of(&m)
}

/// What the pages receive when the site was rebuilt.
pub fn reload_message(version: u64) -> (r: String)
    ensures
        r@ == reload_text(version),
{
    let mut m = chars_of("{\"type\":\"reload\",\"version\":");
    let t = crate::text::u64_text(version);
    crate::text::push_all(&mut m, &t);
    push_str(&mut m, "}");
    string_of(&m)
}

// ---------------------------------------------------------------------------
// laws
/// Reading back a frame that `frame` built gives its opcode's frame with
/// the same payload, whatever bytes follow it.
pub proof fn lemma_frame_roundtrip(opcode: u8, p: Seq<u8>, rest: Seq<u8>)
    requires
        opcode < 16,
        frame_kind(opcode, p) is Some,
        p.len() <= MAX_FRAME,
    ensures
        decode_of(frame_of(opcode, p) + rest) == FrameStepM::Ready(
            frame_kind(opcode, p)->Some_0,
            frame_of(opcode, p).len(),
        ),
{
    let f = frame_of(opcode, p);
    let b = f + rest;
    let len = p.len();
    assert((0x80u8 | opcode) & 0x0Fu8 == opcode) by (bit_vector)
        requires
            opcode < 16,
    ;
    let hs: int;
    if len < 126 {
        hs = 2;
        let l8 = len as u8;
        assert(l8 & 0x7Fu8 == l8 && l8 & 0x80u8 == 0) by (bit_vector)
            requires
                l8 < 126,
        ;
        assert(b[1] == l8);
    } else if len <= 0xFFFF {
        hs = 4;
        let l16 = len as u16;
        assert(126u8 & 0x7Fu8 == 126u8 && 126u8 & 0x80u8 == 0) by (bit_vector);
        assert((((l16 >> 8u16) as u8 as u16) << 8u16) | ((l16 as u8) as u16) == l16) by (bit_vector);
        assert(b[1] == 126u8 && b[2] == (l16 >> 8u16) as u8 && b[3] == l16 as u8);
        assert(be16_at(b, 2) == l16);
    } else {
        hs = 10;
        let x = len as u64;
        assert(127u8 & 0x7Fu8 == 127u8 && 127u8 & 0x80u8 == 0) by (bit_vector);
        assert(((((x >> 56u64) as u8) as u64) << 56u64) | ((((x >> 48u64) as u8) as u64) << 48u64)
            | ((((x >> 40u64) as u8) as u64) << 40u64) | ((((x >> 32u64) as u8) as u64) << 32u64)
            | ((((x >> 24u64) as u8) as u64) << 24u64) | ((((x >> 16u64) as u8) as u64) << 16u64)
            | ((((x >> 8u64) as u8) as u64) << 8u64) | ((x as u8) as u64) == x) by (bit_vector);
        assert(b[1] == 127u8);
        assert(b[2] == (x >> 56u64) as u8 && b[3] == (x >> 48u64) as u8 && b[4] == (x >> 40u64) as u8
            && b[5] == (x >> 32u64) as u8 && b[6] == (x >> 24u64) as u8 && b[7] == (x >> 16u64) as u8
            && b[8] == (x >> 8u64) as u8 && b[9] == x as u8);
        assert(be64_at(b, 2) == x);
    }
    assert(frame_len(b) == Some((len as int, hs)));
    assert(f.len() == hs + len);
    assert(unmasked(b, hs, len as int, false) =~= p);
}

} // verus!

verus! {

/// A frame as a client sends it: the header of `frame_of` with the mask bit
/// set, the four mask bytes, and each payload byte XORed with the mask byte
/// at its position modulo four.
pub open spec fn masked_frame_of(opcode: u8, p: Seq<u8>, m: Seq<u8>) -> Seq<u8> {
    let f = frame_of(opcode, p);
    let hs = f.len() - p.len();
    f.take(hs).update(1, f[1] | 0x80u8) + m + Seq::new(p.len(), |i: int| p[i] ^ m[i % 4])
}

/// Reading back a masked frame, whatever the mask and whatever bytes follow,
/// gives the frame with the original payload.
pub proof fn lemma_masked_frame_roundtrip(opcode: u8, p: Seq<u8>, m: Seq<u8>, rest: Seq<u8>)
    requires
        opcode < 16,
        frame_kind(opcode, p) is Some,
        p.len() <= MAX_FRAME,
        m.len() == 4,
    ensures
        decode_of(masked_frame_of(opcode, p, m) + rest) == FrameStepM::Ready(
            frame_kind(opcode, p)->Some_0,
            masked_frame_of(opcode, p, m).len(),
        ),
{
    let f = frame_of(opcode, p);
    let mf = masked_frame_of(opcode, p, m);
    let b = mf + rest;
    let len = p.len();
    assert((0x80u8 | opcode) & 0x0Fu8 == opcode) by (bit_vector)
        requires
            opcode < 16,
    ;
    let hs: int;
    if len < 126 {
        hs = 2;
        let l8 = len as u8;
        assert((l8 | 0x80u8) & 0x7Fu8 == l8 && (l8 | 0x80u8) & 0x80u8 != 0) by (bit_vector)
            requires
                l8 < 126,
        ;
        assert(b[1] == l8 | 0x80u8);
    } else if len <= 0xFFFF {
        hs = 4;
        let l16 = len as u16;
        assert((126u8 | 0x80u8) & 0x7Fu8 == 126u8 && (126u8 | 0x80u8) & 0x80u8 != 0) by (bit_vector);
        assert((((l16 >> 8u16) as u8 as u16) << 8u16) | ((l16 as u8) as u16) == l16) by (bit_vector);
        assert(b[1] == 126u8 | 0x80u8 && b[2] == (l16 >> 8u16) as u8 && b[3] == l16 as u8);
        assert(be16_at(b, 2) == l16);
    } else {
        hs = 10;
        let x = len as u64;
        assert((127u8 | 0x80u8) & 0x7Fu8 == 127u8 && (127u8 | 0x80u8) & 0x80u8 != 0) by (bit_vector);
        assert(((((x >> 56u64) as u8) as u64) << 56u64) | ((((x >> 48u64) as u8) as u64) << 48u64)
            | ((((x >> 40u64) as u8) as u64) << 40u64) | ((((x >> 32u64) as u8) as u64) << 32u64)
            | ((((x >> 24u64) as u8) as u64) << 24u64) | ((((x >> 16u64) as u8) as u64) << 16u64)
            | ((((x >> 8u64) as u8) as u64) << 8u64) | ((x as u8) as u64) == x) by (bit_vector);
        assert(b[1] == 127u8 | 0x80u8);
        assert(b[2] == (x >> 56u64) as u8 && b[3] == (x >> 48u64) as u8 && b[4] == (x >> 40u64) as u8
            && b[5] == (x >> 32u64) as u8 && b[6] == (x >> 24u64) as u8 && b[7] == (x >> 16u64) as u8
            && b[8] == (x >> 8u64) as u8 && b[9] == x as u8);
        assert(be64_at(b, 2) == x);
    }
    assert(f.len() == hs + len);
    assert(mf.len() == hs + 4 + len);
    assert(b[0] == 0x80u8 | opcode);
    assert(frame_len(b) == Some((len as int, hs)));
    assert forall|i: int| 0 <= i < len implies #[trigger] unmasked(b, hs, len as int, true)[i]
        == p[i] by {
        let x = p[i];
        let y = m[i % 4];
        assert(b[hs + 4 + i] == x ^ y);
        assert(b[hs + i % 4] == y);
        assert((x ^ y) ^ y == x) by (bit_vector);
    }
    assert(unmasked(b, hs, len as int, true) =~= p);
}

} // verus!

verus! {

proof fn lemma_base64_go_len(input: Seq<u8>, k: int)
    requires
        0 <= k,
        3 * k <= input.len() + 2,
    ensures
        base64_go(input, k).len() == 4 * ((input.len() + 2 - 3 * k) / 3),
    decreases input.len() + 3 - 3 * k,
{
    if 3 * k >= input.len() {
    } else {
        lemma_base64_go_len(input, k + 1);
        assert((input.len() + 2 - 3 * k) / 3 == (input.len() + 2 - 3 * (k + 1)) / 3 + 1);
    }
}

/// Base64 gives four characters for every three bytes, the last group
/// padded.
pub proof fn lemma_base64_len(input: Seq<u8>)
    ensures
        base64_of(input).len() == 4 * ((input.len() + 2) / 3),
{
    lemma_base64_go_len(input, 0);
}

/// A SHA-1 digest has twenty bytes.
pub proof fn lemma_sha1_len(m: Seq<u8>)
    ensures
        sha1(m).len() == 20,
{
}

/// A character of the base64 alphabet.
pub open spec fn b64_alpha(c: char) -> bool {
    ('A' <= c && c <= 'Z') || ('a' <= c && c <= 'z') || ('0' <= c && c <= '9') || c == '+' || c
        == '/'
}

proof fn lemma_b64_char_alpha(v: u32)
    requires
        v < 64,
    ensures
        b64_alpha(b64_char(v)),
{
}

proof fn lemma_b64_group_shape(chunk: Seq<u8>)
    requires
        2 <= chunk.len() <= 3,
    ensures
        b64_group(chunk).len() == 4,
        b64_alpha(b64_group(chunk)[0]),
        b64_alpha(b64_group(chunk)[1]),
        b64_alpha(b64_group(chunk)[2]),
        chunk.len() == 3 ==> b64_alpha(b64_group(chunk)[3]),
        chunk.len() == 2 ==> b64_group(chunk)[3] == '=',
{
    let c1: u32 = if chunk.len() > 1 { chunk[1] as u32 } else { 0 };
    let c2: u32 = if chunk.len() > 2 { chunk[2] as u32 } else { 0 };
    let n: u32 = ((chunk[0] as u32) << 16u32) | (c1 << 8u32) | c2;
    assert((n >> 18u32) & 63u32 < 64u32) by (bit_vector);
    assert((n >> 12u32) & 63u32 < 64u32) by (bit_vector);
    assert((n >> 6u32) & 63u32 < 64u32) by (bit_vector);
    assert(n & 63u32 < 64u32) by (bit_vector);
    lemma_b64_char_alpha((n >> 18u32) & 63);
    lemma_b64_char_alpha((n >> 12u32) & 63);
    lemma_b64_char_alpha((n >> 6u32) & 63);
    lemma_b64_char_alpha(n & 63);
}

proof fn lemma_base64_go_shape(input: Seq<u8>, k: int)
    requires
        input.len() % 3 == 2,
        0 <= k,
        3 * k < input.len(),
    ensures
        base64_go(input, k).len() > 0,
        base64_go(input, k).last() == '=',
        forall|i: int|
            0 <= i < base64_go(input, k).len() - 1 ==> b64_alpha(#[trigger] base64_go(input, k)[i]),
    decreases input.len() - 3 * k,
{
    let end = if 3 * k + 3 <= input.len() {
        3 * k + 3
    } else {
        input.len() as int
    };
    let chunk = input.subrange(3 * k, end);
    lemma_b64_group_shape(chunk);
    let g = b64_group(chunk);
    let s = base64_go(input, k);
    if 3 * k + 3 <= input.len() {
        lemma_base64_go_shape(input, k + 1);
        let t = base64_go(input, k + 1);
        assert(s == g + t);
        assert forall|i: int| 0 <= i < s.len() - 1 implies b64_alpha(#[trigger] s[i]) by {
            if i < 4 {
                assert(s[i] == g[i]);
            } else {
                assert(s[i] == t[i - 4]);
            }
        }
    } else {
        assert(base64_go(input, k + 1) =~= Seq::<char>::empty());
        assert(s =~= g);
    }
}

/// The accept value is 27 characters of the base64 alphabet and one `=`:
/// the digest's twenty bytes make six full groups and one group of two.
pub proof fn lemma_accept_shape(key: Seq<char>)
    ensures
        accept_of(key).len() == 28,
        accept_of(key)[27] == '=',
        forall|i: int| 0 <= i < 27 ==> b64_alpha(#[trigger] accept_of(key)[i]),
{
    let d = sha1(vstd::utf8::encode_utf8(key) + vstd::utf8::encode_utf8(ws_guid()));
    lemma_accept_len(key);
    lemma_sha1_len(vstd::utf8::encode_utf8(key) + vstd::utf8::encode_utf8(ws_guid()));
    lemma_base64_go_shape(d, 0);
}

/// The accept value of any key is 28 characters long.
pub proof fn lemma_accept_len(key: Seq<char>)
    ensures
        accept_of(key).len() == 28,
{
    let d = sha1(vstd::utf8::encode_utf8(key) + vstd::utf8::encode_utf8(ws_guid()));
    lemma_sha1_len(vstd::utf8::encode_utf8(key) + vstd::utf8::encode_utf8(ws_guid()));
    lemma_base64_len(d);
}

} // verus!
