//! Typed control-plane messages and their wire grammar.
//!
//! Every control message travels as one frame holding a compact JSON
//! object in the externally-tagged convention: the tag is the variant
//! name, the content its payload. Connection ids are UUID values carried
//! as 128-bit integers and written in the usual hyphenated lowercase hex
//! form. Strings travel as JSON strings of bytes; the serializer escapes
//! quote, backslash and control bytes, the parser undoes it (accepting
//! the usual short escapes as well), and parsing a serialized message
//! gives the message back — proved below for every variant and payload.

use vstd::prelude::*;

use crate::hexstr::{hex_digit, hex_val, is_hex_char};

verus! {

/// The declared protocol of a tunnel; informational only.
#[derive(Clone, Copy, PartialEq, Eq, Structural, Debug)]
pub enum Proto {
    Tcp,
    Http,
}

/// Control messages the client sends to the server.
#[derive(PartialEq, Eq, Clone, Debug)]
pub enum ClientMsg {
    /// Register `subdomain` with the declared protocol.
    Hello { subdomain: Vec<u8>, proto: Proto },
    /// Answer to a `Challenge`: lowercase hex of the HMAC tag.
    Authenticate(Vec<u8>),
    /// Claim the parked inbound connection with this id.
    Accept(u128),
}

/// Control messages the server sends to the client.
#[derive(PartialEq, Eq, Clone, Debug)]
pub enum ServerMsg {
    /// Authentication nonce, sent when the server holds a secret.
    Challenge(u128),
    /// Registration succeeded; inbound traffic arrives on `public_port`.
    Hello { public_port: u16 },
    /// Keepalive with no payload.
    Heartbeat,
    /// An inbound connection was parked under this id.
    Connection(u128),
    /// Terminal failure for this control session.
    Error(Vec<u8>),
}

/// Mathematical shape of a client message: strings as byte sequences.
pub enum ClientMsgV {
    Hello { subdomain: Seq<u8>, proto: Proto },
    Authenticate(Seq<u8>),
    Accept(u128),
}

/// Mathematical shape of a server message.
pub enum ServerMsgV {
    Challenge(u128),
    Hello { public_port: u16 },
    Heartbeat,
    Connection(u128),
    Error(Seq<u8>),
}

impl View for ClientMsg {
    type V = ClientMsgV;

    open spec fn view(&self) -> ClientMsgV {
        match self {
            ClientMsg::Hello { subdomain, proto } => ClientMsgV::Hello {
                subdomain: subdomain@,
                proto: *proto,
            },
            ClientMsg::Authenticate(tag) => ClientMsgV::Authenticate(tag@),
            ClientMsg::Accept(id) => ClientMsgV::Accept(*id),
        }
    }
}

impl View for ServerMsg {
    type V = ServerMsgV;

    open spec fn view(&self) -> ServerMsgV {
        match self {
            ServerMsg::Challenge(id) => ServerMsgV::Challenge(*id),
            ServerMsg::Hello { public_port } => ServerMsgV::Hello { public_port: *public_port },
            ServerMsg::Heartbeat => ServerMsgV::Heartbeat,
            ServerMsg::Connection(id) => ServerMsgV::Connection(*id),
            ServerMsg::Error(e) => ServerMsgV::Error(e@),
        }
    }
}

// ── JSON string escaping ─────────────────────────────────────────────

/// How one byte appears inside a JSON string: quote and backslash get a
/// backslash escape, control bytes a `\u00XX` escape, the rest stand as
/// they are.
pub open spec fn esc_byte(b: u8) -> Seq<u8> {
    if b == 34 {
        seq![92u8, 34u8]
    } else if b == 92 {
        seq![92u8, 92u8]
    } else if b < 32 {
        seq![92u8, 117u8, 48u8, 48u8, hex_digit(b as nat / 16), hex_digit(b as nat % 16)]
    } else {
        seq![b]
    }
}

/// A byte string escaped for a JSON string literal.
pub open spec fn spec_escape(s: Seq<u8>) -> Seq<u8>
    decreases s.len(),
{
    if s.len() == 0 {
        Seq::empty()
    } else {
        esc_byte(s[0]) + spec_escape(s.skip(1))
    }
}

/// Escaping distributes over concatenation.
pub proof fn lemma_escape_append(a: Seq<u8>, b: Seq<u8>)
    ensures
        spec_escape(a + b) == spec_escape(a) + spec_escape(b),
    decreases a.len(),
{
    if a.len() == 0 {
        assert(a + b =~= b);
        assert(spec_escape(a) + spec_escape(b) =~= spec_escape(b));
    } else {
        lemma_escape_append(a.skip(1), b);
        assert((a + b).skip(1) =~= a.skip(1) + b);
        assert(esc_byte(a[0]) + (spec_escape(a.skip(1)) + spec_escape(b)) =~= (esc_byte(a[0])
            + spec_escape(a.skip(1))) + spec_escape(b));
    }
}

/// Reading a JSON string's content: the bytes up to the closing quote,
/// with escapes decoded, and the number of input bytes consumed (closing
/// quote included). `None` on malformed input: a bare control byte, an
/// unknown escape, or no closing quote.
pub open spec fn spec_parse_str(s: Seq<u8>) -> Option<(Seq<u8>, int)>
    decreases s.len(),
{
    if s.len() == 0 {
        None
    } else if s[0] == 34 {
        Some((Seq::empty(), 1))
    } else if s[0] == 92 {
        if s.len() < 2 {
            None
        } else if s[1] == 34 || s[1] == 92 || s[1] == 47 {
            str_cons(s[1], spec_parse_str(s.skip(2)), 2)
        } else if s[1] == 98 {
            str_cons(8, spec_parse_str(s.skip(2)), 2)
        } else if s[1] == 116 {
            str_cons(9, spec_parse_str(s.skip(2)), 2)
        } else if s[1] == 110 {
            str_cons(10, spec_parse_str(s.skip(2)), 2)
        } else if s[1] == 102 {
            str_cons(12, spec_parse_str(s.skip(2)), 2)
        } else if s[1] == 114 {
            str_cons(13, spec_parse_str(s.skip(2)), 2)
        } else if s[1] == 117 {
            if s.len() < 6 || s[2] != 48 || s[3] != 48 || !is_hex_char(s[4]) || !is_hex_char(s[5]) {
                None
            } else {
                str_cons((hex_val(s[4]) * 16 + hex_val(s[5])) as u8, spec_parse_str(s.skip(6)), 6)
            }
        } else {
            None
        }
    } else if s[0] < 32 {
        None
    } else {
        str_cons(s[0], spec_parse_str(s.skip(1)), 1)
    }
}

/// Prepend a decoded byte to a string-parse result, charging `k` input
/// bytes for it.
pub open spec fn str_cons(b: u8, rest: Option<(Seq<u8>, int)>, k: int) -> Option<(Seq<u8>, int)> {
    match rest {
        None => None,
        Some((t, n)) => Some((seq![b] + t, n + k)),
    }
}

/// Value and hex-digit shape of the digits the escaper writes.
proof fn lemma_hex_digit_val(v: nat)
    requires
        v < 16,
    ensures
        is_hex_char(hex_digit(v)),
        hex_val(hex_digit(v)) == v,
{
}

/// Reading back an escaped string finds exactly the original bytes and
/// stops at the closing quote.
pub proof fn lemma_parse_escape(s: Seq<u8>, rest: Seq<u8>)
    ensures
        spec_parse_str(spec_escape(s) + seq![34u8] + rest) == Some((
            s,
            spec_escape(s).len() as int + 1,
        )),
    decreases s.len(),
{
    let t = spec_escape(s) + seq![34u8] + rest;
    if s.len() == 0 {
        assert(t =~= seq![34u8] + rest);
        assert(t[0] == 34);
        assert(spec_parse_str(t) == Some((Seq::<u8>::empty(), 1int)));
        assert(Seq::<u8>::empty() =~= s);
    } else {
        lemma_parse_escape(s.skip(1), rest);
        let e = esc_byte(s[0]);
        let t2 = spec_escape(s.skip(1)) + seq![34u8] + rest;
        assert(t =~= e + t2);
        assert(forall|j: int| 0 <= j < e.len() ==> t[j] == e[j]);
        let b = s[0];
        if b == 34 || b == 92 {
            assert(t[0] == 92 && t[1] == b);
            assert(t.skip(2) =~= t2);
            assert(spec_parse_str(t) == str_cons(b, spec_parse_str(t2), 2));
            assert(seq![b] + s.skip(1) =~= s);
        } else if b < 32 {
            lemma_hex_digit_val(b as nat / 16);
            lemma_hex_digit_val(b as nat % 16);
            assert(t[0] == 92 && t[1] == 117 && t[2] == 48 && t[3] == 48);
            assert(t[4] == hex_digit(b as nat / 16) && t[5] == hex_digit(b as nat % 16));
            assert(t.skip(6) =~= t2);
            assert(hex_val(t[4]) * 16 + hex_val(t[5]) == b as nat) by {
                vstd::arithmetic::div_mod::lemma_fundamental_div_mod(b as int, 16);
            }
            assert(spec_parse_str(t) == str_cons(b, spec_parse_str(t2), 6));
            assert(seq![b] + s.skip(1) =~= s);
        } else {
            assert(t[0] == b && b != 34 && b != 92 && b >= 32);
            assert(t.skip(1) =~= t2);
            assert(spec_parse_str(t) == str_cons(b, spec_parse_str(t2), 1));
            assert(seq![b] + s.skip(1) =~= s);
        }
    }
}

// ── UUID values in hyphenated hex ────────────────────────────────────

/// 16 to the `k`.
pub open spec fn pow16(k: nat) -> nat
    decreases k,
{
    if k == 0 {
        1
    } else {
        16 * pow16((k - 1) as nat)
    }
}

/// 10 to the `k`.
pub open spec fn pow10(k: nat) -> nat
    decreases k,
{
    if k == 0 {
        1
    } else {
        10 * pow10((k - 1) as nat)
    }
}

/// The `k` lowercase hex digits of `v`, most significant first.
pub open spec fn hexn(v: nat, k: nat) -> Seq<u8>
    decreases k,
{
    if k == 0 {
        Seq::empty()
    } else {
        hexn(v / 16, (k - 1) as nat).push(hex_digit(v % 16))
    }
}

/// Fold hex digits onto an accumulator, most significant first.
pub open spec fn unhex_acc(acc: nat, d: Seq<u8>) -> nat
    decreases d.len(),
{
    if d.len() == 0 {
        acc
    } else {
        unhex_acc(acc * 16 + hex_val(d[0]), d.skip(1))
    }
}

/// The fold splits over concatenation.
pub proof fn lemma_unhex_acc_append(acc: nat, a: Seq<u8>, b: Seq<u8>)
    ensures
        unhex_acc(acc, a + b) == unhex_acc(unhex_acc(acc, a), b),
    decreases a.len(),
{
    if a.len() == 0 {
        assert(a + b =~= b);
    } else {
        assert((a + b)[0] == a[0]);
        assert((a + b).skip(1) =~= a.skip(1) + b);
        lemma_unhex_acc_append(acc * 16 + hex_val(a[0]), a.skip(1), b);
    }
}

/// Shape and value of `hexn`: `k` hex digits that fold back to `v`.
pub proof fn lemma_unhex_hexn(acc: nat, v: nat, k: nat)
    requires
        v < pow16(k),
    ensures
        hexn(v, k).len() == k,
        forall|i: int| 0 <= i < k ==> is_hex_char(#[trigger] hexn(v, k)[i]),
        unhex_acc(acc, hexn(v, k)) == acc * pow16(k) + v,
    decreases k,
{
    if k == 0 {
        assert(v == 0);
        assert(acc * 1 + 0 == acc) by (nonlinear_arith);
    } else {
        let p = pow16((k - 1) as nat);
        vstd::arithmetic::div_mod::lemma_fundamental_div_mod(v as int, 16);
        assert(v / 16 < p) by (nonlinear_arith)
            requires
                v < 16 * p,
                v as int == 16 * (v as int / 16) + v as int % 16,
                v as int % 16 >= 0,
        ;
        lemma_unhex_hexn(acc, v / 16, (k - 1) as nat);
        lemma_hex_digit_val(v % 16);
        let front = hexn(v / 16, (k - 1) as nat);
        let dg = hex_digit(v % 16);
        assert(hexn(v, k) =~= front + seq![dg]);
        lemma_unhex_acc_append(acc, front, seq![dg]);
        let m = unhex_acc(acc, front);
        lemma_unhex_one(m, dg);
        assert((acc * p + v / 16) * 16 + v % 16 == acc * (16 * p) + (16 * (v / 16) + v % 16))
            by (nonlinear_arith);
        assert forall|i: int| 0 <= i < k implies is_hex_char(#[trigger] hexn(v, k)[i]) by {
            if i < k - 1 {
                assert(hexn(v, k)[i] == front[i]);
            } else {
                assert(hexn(v, k)[i] == dg);
            }
        }
    }
}

/// Folding a single hex digit.
proof fn lemma_unhex_one(acc: nat, dg: u8)
    ensures
        unhex_acc(acc, seq![dg]) == acc * 16 + hex_val(dg),
{
    reveal_with_fuel(unhex_acc, 3);
    let s = seq![dg];
    assert(s[0] == dg);
    assert(s.skip(1) =~= Seq::<u8>::empty());
}

/// Folding a single decimal digit.
proof fn lemma_undec_one(acc: nat, dg: u8)
    ensures
        undec_acc(acc, seq![dg]) == acc * 10 + (dg - 48) as nat,
{
    reveal_with_fuel(undec_acc, 3);
    let s = seq![dg];
    assert(s[0] == dg);
    assert(s.skip(1) =~= Seq::<u8>::empty());
}

/// A UUID value written the usual way: 8-4-4-4-12 lowercase hex digits.
pub open spec fn spec_uuid(v: u128) -> Seq<u8> {
    let h = hexn(v as nat, 32);
    h.subrange(0, 8) + seq![45u8] + h.subrange(8, 12) + seq![45u8] + h.subrange(12, 16)
        + seq![45u8] + h.subrange(16, 20) + seq![45u8] + h.subrange(20, 32)
}

/// All bytes of `s` between `i` and `j` are hex digits.
pub open spec fn seg_hex(s: Seq<u8>, i: int, j: int) -> bool {
    forall|p: int| i <= p < j ==> is_hex_char(#[trigger] s[p])
}

/// Read a hyphenated UUID from the head of `s`: 36 bytes, hyphens at
/// their fixed places, hex (either case) everywhere else.
pub open spec fn spec_parse_uuid(s: Seq<u8>) -> Option<u128> {
    if s.len() >= 36 && s[8] == 45 && s[13] == 45 && s[18] == 45 && s[23] == 45 && seg_hex(s, 0, 8)
        && seg_hex(s, 9, 13) && seg_hex(s, 14, 18) && seg_hex(s, 19, 23) && seg_hex(s, 24, 36) {
        Some(
            unhex_acc(
                unhex_acc(
                    unhex_acc(
                        unhex_acc(unhex_acc(0, s.subrange(0, 8)), s.subrange(9, 13)),
                        s.subrange(14, 18),
                    ),
                    s.subrange(19, 23),
                ),
                s.subrange(24, 36),
            ) as u128,
        )
    } else {
        None
    }
}

/// Reading back a written UUID finds the value again, whatever follows.
pub proof fn lemma_parse_ser_uuid(v: u128, rest: Seq<u8>)
    ensures
        spec_uuid(v).len() == 36,
        spec_parse_uuid(spec_uuid(v) + rest) == Some(v),
{
    assert(pow16(32) == 0x100000000000000000000000000000000) by {
        reveal_with_fuel(pow16, 33);
    }
    lemma_unhex_hexn(0, v as nat, 32);
    let h = hexn(v as nat, 32);
    let u = spec_uuid(v);
    let t = u + rest;
    assert(u.len() == 36);
    assert forall|i: int| 0 <= i < 36 implies t[i] == u[i] by {}
    assert(t.subrange(0, 8) =~= h.subrange(0, 8));
    assert(t[8] == 45 && t[13] == 45 && t[18] == 45 && t[23] == 45);
    assert(t.subrange(9, 13) =~= h.subrange(8, 12));
    assert(t.subrange(14, 18) =~= h.subrange(12, 16));
    assert(t.subrange(19, 23) =~= h.subrange(16, 20));
    assert(t.subrange(24, 36) =~= h.subrange(20, 32));
    assert(seg_hex(t, 0, 8) && seg_hex(t, 9, 13) && seg_hex(t, 14, 18) && seg_hex(t, 19, 23)
        && seg_hex(t, 24, 36)) by {
        assert forall|p: int| 0 <= p < 8 implies is_hex_char(#[trigger] t[p]) by {
            assert(t[p] == h[p]);
        }
        assert forall|p: int| 9 <= p < 13 implies is_hex_char(#[trigger] t[p]) by {
            assert(t[p] == h[p - 1]);
        }
        assert forall|p: int| 14 <= p < 18 implies is_hex_char(#[trigger] t[p]) by {
            assert(t[p] == h[p - 2]);
        }
        assert forall|p: int| 19 <= p < 23 implies is_hex_char(#[trigger] t[p]) by {
            assert(t[p] == h[p - 3]);
        }
        assert forall|p: int| 24 <= p < 36 implies is_hex_char(#[trigger] t[p]) by {
            assert(t[p] == h[p - 4]);
        }
    }
    assert(h =~= h.subrange(0, 8) + h.subrange(8, 12) + h.subrange(12, 16) + h.subrange(16, 20)
        + h.subrange(20, 32));
    lemma_unhex_acc_append(0, h.subrange(0, 8), h.subrange(8, 12));
    let a1 = unhex_acc(0, h.subrange(0, 8) + h.subrange(8, 12));
    lemma_unhex_acc_append(
        0,
        h.subrange(0, 8) + h.subrange(8, 12),
        h.subrange(12, 16),
    );
    let a2 = unhex_acc(0, h.subrange(0, 8) + h.subrange(8, 12) + h.subrange(12, 16));
    lemma_unhex_acc_append(
        0,
        h.subrange(0, 8) + h.subrange(8, 12) + h.subrange(12, 16),
        h.subrange(16, 20),
    );
    let a3 = unhex_acc(
        0,
        h.subrange(0, 8) + h.subrange(8, 12) + h.subrange(12, 16) + h.subrange(16, 20),
    );
    lemma_unhex_acc_append(
        0,
        h.subrange(0, 8) + h.subrange(8, 12) + h.subrange(12, 16) + h.subrange(16, 20),
        h.subrange(20, 32),
    );
    assert(unhex_acc(0, h) == v as nat);
}

// ── Decimal numbers ──────────────────────────────────────────────────

/// The decimal digits of `n`, most significant first, no leading zeros.
pub open spec fn spec_dec(n: nat) -> Seq<u8>
    decreases n,
{
    if n < 10 {
        seq![(48 + n) as u8]
    } else {
        spec_dec(n / 10) + seq![(48 + n % 10) as u8]
    }
}

pub open spec fn is_digit(c: u8) -> bool {
    48 <= c <= 57
}

/// How many leading decimal digits `s` has.
pub open spec fn first_non_digit(s: Seq<u8>) -> int
    decreases s.len(),
{
    if s.len() == 0 {
        0
    } else if !is_digit(s[0]) {
        0
    } else {
        1 + first_non_digit(s.skip(1))
    }
}

/// Fold decimal digits onto an accumulator, most significant first.
pub open spec fn undec_acc(acc: nat, d: Seq<u8>) -> nat
    decreases d.len(),
{
    if d.len() == 0 {
        acc
    } else {
        undec_acc(acc * 10 + (d[0] - 48) as nat, d.skip(1))
    }
}

/// Read a `u16` from the head of `s`: at least one digit, no leading
/// zero, value at most 65535.
pub open spec fn spec_parse_u16(s: Seq<u8>) -> Option<(u16, int)> {
    let k = first_non_digit(s);
    if k < 1 {
        None
    } else if k > 1 && s[0] == 48 {
        None
    } else if undec_acc(0, s.subrange(0, k)) > 65535 {
        None
    } else {
        Some((undec_acc(0, s.subrange(0, k)) as u16, k))
    }
}

/// The decimal fold splits over concatenation.
pub proof fn lemma_undec_acc_append(acc: nat, a: Seq<u8>, b: Seq<u8>)
    ensures
        undec_acc(acc, a + b) == undec_acc(undec_acc(acc, a), b),
    decreases a.len(),
{
    if a.len() == 0 {
        assert(a + b =~= b);
    } else {
        assert((a + b)[0] == a[0]);
        assert((a + b).skip(1) =~= a.skip(1) + b);
        lemma_undec_acc_append(acc * 10 + (a[0] - 48) as nat, a.skip(1), b);
    }
}

/// Folding digits never shrinks the accumulator.
pub proof fn lemma_undec_acc_lower(acc: nat, d: Seq<u8>)
    ensures
        undec_acc(acc, d) >= acc,
    decreases d.len(),
{
    if d.len() > 0 {
        let acc2 = acc * 10 + (d[0] - 48) as nat;
        assert(acc2 >= acc) by (nonlinear_arith)
            requires
                acc2 == acc * 10 + (d[0] - 48) as nat,
        ;
        lemma_undec_acc_lower(acc2, d.skip(1));
    }
}

/// Shape and value of `spec_dec`: digits only, a nonzero lead digit
/// unless the number is zero, folding back to `n`.
pub proof fn lemma_undec_dec(acc: nat, n: nat)
    ensures
        spec_dec(n).len() >= 1,
        forall|i: int| 0 <= i < spec_dec(n).len() ==> is_digit(#[trigger] spec_dec(n)[i]),
        spec_dec(n)[0] == 48 ==> n == 0,
        undec_acc(acc, spec_dec(n)) == acc * pow10(spec_dec(n).len()) + n,
    decreases n,
{
    if n < 10 {
        assert(spec_dec(n) =~= seq![(48 + n) as u8]);
        lemma_undec_one(acc, (48 + n) as u8);
        assert(undec_acc(acc, spec_dec(n)) == acc * 10 + n);
        assert(pow10(1) == 10) by {
            reveal_with_fuel(pow10, 2);
        }
    } else {
        vstd::arithmetic::div_mod::lemma_fundamental_div_mod(n as int, 10);
        lemma_undec_dec(acc, n / 10);
        let front = spec_dec(n / 10);
        let dg = (48 + n % 10) as u8;
        assert(spec_dec(n) =~= front + seq![dg]);
        lemma_undec_acc_append(acc, front, seq![dg]);
        let m = undec_acc(acc, front);
        lemma_undec_one(m, dg);
        assert(undec_acc(m, seq![dg]) == m * 10 + (n % 10));
        assert((acc * pow10(front.len()) + n / 10) * 10 + n % 10 == acc * (10 * pow10(
            front.len(),
        )) + (10 * (n / 10) + n % 10)) by (nonlinear_arith);
        assert(pow10(front.len() + 1) == 10 * pow10(front.len()));
        assert(spec_dec(n)[0] == front[0]);
        assert(n / 10 >= 1);
        assert forall|i: int| 0 <= i < spec_dec(n).len() implies is_digit(
            #[trigger] spec_dec(n)[i],
        ) by {
            if i < front.len() {
                assert(spec_dec(n)[i] == front[i]);
            } else {
                assert(spec_dec(n)[i] == dg);
            }
        }
    }
}

/// A digit run followed by a non-digit stops the scan exactly there.
pub proof fn lemma_first_non_digit(d: Seq<u8>, rest: Seq<u8>)
    requires
        forall|i: int| 0 <= i < d.len() ==> is_digit(#[trigger] d[i]),
        rest.len() > 0,
        !is_digit(rest[0]),
    ensures
        first_non_digit(d + rest) == d.len(),
    decreases d.len(),
{
    let t = d + rest;
    if d.len() == 0 {
        assert(t =~= rest);
    } else {
        assert(t[0] == d[0]);
        assert(t.skip(1) =~= d.skip(1) + rest);
        lemma_first_non_digit(d.skip(1), rest);
    }
}

/// Reading back a written `u16` finds the value again, provided what
/// follows does not begin with a digit.
pub proof fn lemma_parse_ser_dec(n: u16, rest: Seq<u8>)
    requires
        rest.len() > 0,
        !is_digit(rest[0]),
    ensures
        spec_parse_u16(spec_dec(n as nat) + rest) == Some((n, spec_dec(n as nat).len() as int)),
{
    let d = spec_dec(n as nat);
    let t = d + rest;
    lemma_undec_dec(0, n as nat);
    lemma_first_non_digit(d, rest);
    assert(t.subrange(0, d.len() as int) =~= d);
    assert(undec_acc(0, d) == 0 * pow10(d.len()) + n as nat);
    assert(0 * pow10(d.len()) == 0) by (nonlinear_arith);
    if d.len() > 1 {
        assert(t[0] == d[0]);
        assert(t[0] != 48);
    }
}

// ── Wire literals ────────────────────────────────────────────────────

/// One fixed literal of the grammar, as UTF-8 bytes.
pub open spec fn lit_chello() -> Seq<u8> {
    seq![123u8, 34u8, 72u8, 101u8, 108u8, 108u8, 111u8, 34u8, 58u8, 123u8, 34u8, 115u8, 117u8, 98u8, 100u8, 111u8, 109u8, 97u8, 105u8, 110u8, 34u8, 58u8, 34u8]
}

/// One fixed literal of the grammar, as UTF-8 bytes.
pub open spec fn lit_tcp_tail() -> Seq<u8> {
    seq![44u8, 34u8, 112u8, 114u8, 111u8, 116u8, 111u8, 34u8, 58u8, 34u8, 84u8, 99u8, 112u8, 34u8, 125u8, 125u8]
}

/// One fixed literal of the grammar, as UTF-8 bytes.
pub open spec fn lit_http_tail() -> Seq<u8> {
    seq![44u8, 34u8, 112u8, 114u8, 111u8, 116u8, 111u8, 34u8, 58u8, 34u8, 72u8, 116u8, 116u8, 112u8, 34u8, 125u8, 125u8]
}

/// One fixed literal of the grammar, as UTF-8 bytes.
pub open spec fn lit_cauth() -> Seq<u8> {
    seq![123u8, 34u8, 65u8, 117u8, 116u8, 104u8, 101u8, 110u8, 116u8, 105u8, 99u8, 97u8, 116u8, 101u8, 34u8, 58u8, 34u8]
}

/// One fixed literal of the grammar, as UTF-8 bytes.
pub open spec fn lit_caccept() -> Seq<u8> {
    seq![123u8, 34u8, 65u8, 99u8, 99u8, 101u8, 112u8, 116u8, 34u8, 58u8, 34u8]
}

/// One fixed literal of the grammar, as UTF-8 bytes.
pub open spec fn lit_schallenge() -> Seq<u8> {
    seq![123u8, 34u8, 67u8, 104u8, 97u8, 108u8, 108u8, 101u8, 110u8, 103u8, 101u8, 34u8, 58u8, 34u8]
}

/// One fixed literal of the grammar, as UTF-8 bytes.
pub open spec fn lit_shello() -> Seq<u8> {
    seq![123u8, 34u8, 72u8, 101u8, 108u8, 108u8, 111u8, 34u8, 58u8, 123u8, 34u8, 112u8, 117u8, 98u8, 108u8, 105u8, 99u8, 95u8, 112u8, 111u8, 114u8, 116u8, 34u8, 58u8]
}

/// One fixed literal of the grammar, as UTF-8 bytes.
pub open spec fn lit_heartbeat() -> Seq<u8> {
    seq![34u8, 72u8, 101u8, 97u8, 114u8, 116u8, 98u8, 101u8, 97u8, 116u8, 34u8]
}

/// One fixed literal of the grammar, as UTF-8 bytes.
pub open spec fn lit_sconnection() -> Seq<u8> {
    seq![123u8, 34u8, 67u8, 111u8, 110u8, 110u8, 101u8, 99u8, 116u8, 105u8, 111u8, 110u8, 34u8, 58u8, 34u8]
}

/// One fixed literal of the grammar, as UTF-8 bytes.
pub open spec fn lit_serror() -> Seq<u8> {
    seq![123u8, 34u8, 69u8, 114u8, 114u8, 111u8, 114u8, 34u8, 58u8, 34u8]
}

/// `p` is a prefix of `s`.
pub open spec fn prefixed(s: Seq<u8>, p: Seq<u8>) -> bool {
    p.len() <= s.len() && s.subrange(0, p.len() as int) == p
}

// ── Serialization ────────────────────────────────────────────────────

/// The one frame payload that carries a client message.
pub open spec fn spec_ser_client(m: ClientMsgV) -> Seq<u8> {
    match m {
        ClientMsgV::Hello { subdomain, proto } => lit_chello() + spec_escape(subdomain)
            + seq![34u8] + (if proto is Tcp {
            lit_tcp_tail()
        } else {
            lit_http_tail()
        }),
        ClientMsgV::Authenticate(tag) => lit_cauth() + spec_escape(tag) + seq![34u8]
            + seq![125u8],
        ClientMsgV::Accept(id) => lit_caccept() + spec_uuid(id) + seq![34u8, 125u8],
    }
}

/// The one frame payload that carries a server message.
pub open spec fn spec_ser_server(m: ServerMsgV) -> Seq<u8> {
    match m {
        ServerMsgV::Challenge(id) => lit_schallenge() + spec_uuid(id) + seq![34u8, 125u8],
        ServerMsgV::Hello { public_port } => lit_shello() + spec_dec(public_port as nat)
            + seq![125u8, 125u8],
        ServerMsgV::Heartbeat => lit_heartbeat(),
        ServerMsgV::Connection(id) => lit_sconnection() + spec_uuid(id) + seq![34u8, 125u8],
        ServerMsgV::Error(e) => lit_serror() + spec_escape(e) + seq![34u8] + seq![125u8],
    }
}

// ── Parsing ──────────────────────────────────────────────────────────

/// Read a client message out of one frame payload; `None` on anything
/// that is not a canonical message.
pub open spec fn spec_parse_client(s: Seq<u8>) -> Option<ClientMsgV> {
    if prefixed(s, lit_chello()) {
        let r1 = s.skip(lit_chello().len() as int);
        match spec_parse_str(r1) {
            Option::None => Option::None,
            Option::Some((sub, n)) => {
                let tail = r1.skip(n);
                if tail == lit_tcp_tail() {
                    Option::Some(ClientMsgV::Hello { subdomain: sub, proto: Proto::Tcp })
                } else if tail == lit_http_tail() {
                    Option::Some(ClientMsgV::Hello { subdomain: sub, proto: Proto::Http })
                } else {
                    Option::None
                }
            },
        }
    } else if prefixed(s, lit_cauth()) {
        let r1 = s.skip(lit_cauth().len() as int);
        match spec_parse_str(r1) {
            Option::None => Option::None,
            Option::Some((tag, n)) => {
                if r1.skip(n) == seq![125u8] {
                    Option::Some(ClientMsgV::Authenticate(tag))
                } else {
                    Option::None
                }
            },
        }
    } else if prefixed(s, lit_caccept()) {
        let r1 = s.skip(lit_caccept().len() as int);
        match spec_parse_uuid(r1) {
            Option::None => Option::None,
            Option::Some(v) => {
                if r1.skip(36) == seq![34u8, 125u8] {
                    Option::Some(ClientMsgV::Accept(v))
                } else {
                    Option::None
                }
            },
        }
    } else {
        Option::None
    }
}

/// Read a server message out of one frame payload.
pub open spec fn spec_parse_server(s: Seq<u8>) -> Option<ServerMsgV> {
    if s == lit_heartbeat() {
        Option::Some(ServerMsgV::Heartbeat)
    } else if prefixed(s, lit_schallenge()) {
        let r1 = s.skip(lit_schallenge().len() as int);
        match spec_parse_uuid(r1) {
            Option::None => Option::None,
            Option::Some(v) => {
                if r1.skip(36) == seq![34u8, 125u8] {
                    Option::Some(ServerMsgV::Challenge(v))
                } else {
                    Option::None
                }
            },
        }
    } else if prefixed(s, lit_shello()) {
        let r1 = s.skip(lit_shello().len() as int);
        match spec_parse_u16(r1) {
            Option::None => Option::None,
            Option::Some((p, k)) => {
                if r1.skip(k) == seq![125u8, 125u8] {
                    Option::Some(ServerMsgV::Hello { public_port: p })
                } else {
                    Option::None
                }
            },
        }
    } else if prefixed(s, lit_sconnection()) {
        let r1 = s.skip(lit_sconnection().len() as int);
        match spec_parse_uuid(r1) {
            Option::None => Option::None,
            Option::Some(v) => {
                if r1.skip(36) == seq![34u8, 125u8] {
                    Option::Some(ServerMsgV::Connection(v))
                } else {
                    Option::None
                }
            },
        }
    } else if prefixed(s, lit_serror()) {
        let r1 = s.skip(lit_serror().len() as int);
        match spec_parse_str(r1) {
            Option::None => Option::None,
            Option::Some((e, n)) => {
                if r1.skip(n) == seq![125u8] {
                    Option::Some(ServerMsgV::Error(e))
                } else {
                    Option::None
                }
            },
        }
    } else {
        Option::None
    }
}

// ── The round trip ───────────────────────────────────────────────────

/// Parsing a serialized client message gives the message back, for every
/// variant and every payload.
#[verifier::rlimit(80)]
pub proof fn lemma_client_round_trip(m: ClientMsgV)
    ensures
        spec_parse_client(spec_ser_client(m)) == Some(m),
{
    let s = spec_ser_client(m);
    match m {
        ClientMsgV::Hello { subdomain, proto } => {
            let tail = if proto is Tcp { lit_tcp_tail() } else { lit_http_tail() };
            assert(s =~= lit_chello() + (spec_escape(subdomain) + seq![34u8] + tail));
            assert(s.subrange(0, 23) =~= lit_chello());
            let r1 = s.skip(23);
            assert(r1 =~= spec_escape(subdomain) + seq![34u8] + tail);
            lemma_parse_escape(subdomain, tail);
            let n = spec_escape(subdomain).len() as int + 1;
            assert(r1.skip(n) =~= tail);
            assert(lit_tcp_tail().len() == 16 && lit_http_tail().len() == 17);
        },
        ClientMsgV::Authenticate(tag) => {
            assert(s =~= lit_cauth() + (spec_escape(tag) + seq![34u8] + seq![125u8]));
            assert(s[2] == 65u8);
            assert(lit_chello()[2] == 72u8);
            assert(!prefixed(s, lit_chello())) by {
                if prefixed(s, lit_chello()) {
                    assert(s.subrange(0, 23)[2] == s[2]);
                }
            }
            assert(s.subrange(0, 17) =~= lit_cauth());
            let r1 = s.skip(17);
            assert(r1 =~= spec_escape(tag) + seq![34u8] + seq![125u8]);
            lemma_parse_escape(tag, seq![125u8]);
            let n = spec_escape(tag).len() as int + 1;
            assert(r1.skip(n) =~= seq![125u8]);
        },
        ClientMsgV::Accept(id) => {
            lemma_parse_ser_uuid(id, seq![34u8, 125u8]);
            assert(s =~= lit_caccept() + (spec_uuid(id) + seq![34u8, 125u8]));
            assert(s[2] == 65u8 && s[3] == 99u8);
            assert(lit_chello()[2] == 72u8 && lit_cauth()[3] == 117u8);
            assert(!prefixed(s, lit_chello())) by {
                if prefixed(s, lit_chello()) {
                    assert(s.subrange(0, 23)[2] == s[2]);
                }
            }
            assert(!prefixed(s, lit_cauth())) by {
                if prefixed(s, lit_cauth()) {
                    assert(s.subrange(0, 17)[3] == s[3]);
                }
            }
            assert(s.subrange(0, 11) =~= lit_caccept());
            let r1 = s.skip(11);
            assert(r1 =~= spec_uuid(id) + seq![34u8, 125u8]);
            assert(r1.skip(36) =~= seq![34u8, 125u8]);
        },
    }
}

/// Parsing a serialized server message gives the message back, for every
/// variant and every payload.
#[verifier::rlimit(80)]
pub proof fn lemma_server_round_trip(m: ServerMsgV)
    ensures
        spec_parse_server(spec_ser_server(m)) == Some(m),
{
    let s = spec_ser_server(m);
    match m {
        ServerMsgV::Heartbeat => {
        },
        ServerMsgV::Challenge(id) => {
            lemma_parse_ser_uuid(id, seq![34u8, 125u8]);
            assert(s =~= lit_schallenge() + (spec_uuid(id) + seq![34u8, 125u8]));
            assert(s.len() == 52);
            assert(s != lit_heartbeat());
            assert(s.subrange(0, 14) =~= lit_schallenge());
            let r1 = s.skip(14);
            assert(r1 =~= spec_uuid(id) + seq![34u8, 125u8]);
            assert(r1.skip(36) =~= seq![34u8, 125u8]);
        },
        ServerMsgV::Hello { public_port } => {
            lemma_undec_dec(0, public_port as nat);
            lemma_parse_ser_dec(public_port, seq![125u8, 125u8]);
            let d = spec_dec(public_port as nat);
            assert(s =~= lit_shello() + (d + seq![125u8, 125u8]));
            assert(s.len() >= 27);
            assert(s != lit_heartbeat());
            assert(s[2] == 72u8);
            assert(lit_schallenge()[2] == 67u8);
            assert(!prefixed(s, lit_schallenge())) by {
                if prefixed(s, lit_schallenge()) {
                    assert(s.subrange(0, 14)[2] == s[2]);
                }
            }
            assert(s.subrange(0, 24) =~= lit_shello());
            let r1 = s.skip(24);
            assert(r1 =~= d + seq![125u8, 125u8]);
            let k = d.len() as int;
            assert(r1.skip(k) =~= seq![125u8, 125u8]);
        },
        ServerMsgV::Connection(id) => {
            lemma_parse_ser_uuid(id, seq![34u8, 125u8]);
            assert(s =~= lit_sconnection() + (spec_uuid(id) + seq![34u8, 125u8]));
            assert(s.len() == 53);
            assert(s != lit_heartbeat());
            assert(s[3] == 111u8 && s[2] == 67u8);
            assert(lit_schallenge()[3] == 104u8 && lit_shello()[2] == 72u8);
            assert(!prefixed(s, lit_schallenge())) by {
                if prefixed(s, lit_schallenge()) {
                    assert(s.subrange(0, 14)[3] == s[3]);
                }
            }
            assert(!prefixed(s, lit_shello())) by {
                if prefixed(s, lit_shello()) {
                    assert(s.subrange(0, 24)[2] == s[2]);
                }
            }
            assert(s.subrange(0, 15) =~= lit_sconnection());
            let r1 = s.skip(15);
            assert(r1 =~= spec_uuid(id) + seq![34u8, 125u8]);
            assert(r1.skip(36) =~= seq![34u8, 125u8]);
        },
        ServerMsgV::Error(e) => {
            assert(s =~= lit_serror() + (spec_escape(e) + seq![34u8] + seq![125u8]));
            assert(s.len() >= 12);
            assert(s != lit_heartbeat());
            assert(s[2] == 69u8);
            assert(lit_schallenge()[2] == 67u8 && lit_shello()[2] == 72u8 && lit_sconnection()[2]
                == 67u8);
            assert(!prefixed(s, lit_schallenge())) by {
                if prefixed(s, lit_schallenge()) {
                    assert(s.subrange(0, 14)[2] == s[2]);
                }
            }
            assert(!prefixed(s, lit_shello())) by {
                if prefixed(s, lit_shello()) {
                    assert(s.subrange(0, 24)[2] == s[2]);
                }
            }
            assert(!prefixed(s, lit_sconnection())) by {
                if prefixed(s, lit_sconnection()) {
                    assert(s.subrange(0, 15)[2] == s[2]);
                }
            }
            assert(s.subrange(0, 10) =~= lit_serror());
            let r1 = s.skip(10);
            assert(r1 =~= spec_escape(e) + seq![34u8] + seq![125u8]);
            lemma_parse_escape(e, seq![125u8]);
            let n = spec_escape(e).len() as int + 1;
            assert(r1.skip(n) =~= seq![125u8]);
        },
    }
}

// ── Executable serializer ────────────────────────────────────────────

fn lit_chello_vec() -> (r: Vec<u8>)
    ensures
        r@ == lit_chello(),
{
    let v: Vec<u8> = vec![123u8, 34u8, 72u8, 101u8, 108u8, 108u8, 111u8, 34u8, 58u8, 123u8, 34u8, 115u8, 117u8, 98u8, 100u8, 111u8, 109u8, 97u8, 105u8, 110u8, 34u8, 58u8, 34u8];
    proof {
        assert(v@ =~= lit_chello());
    }
    v
}

fn lit_tcp_tail_vec() -> (r: Vec<u8>)
    ensures
        r@ == lit_tcp_tail(),
{
    let v: Vec<u8> = vec![44u8, 34u8, 112u8, 114u8, 111u8, 116u8, 111u8, 34u8, 58u8, 34u8, 84u8, 99u8, 112u8, 34u8, 125u8, 125u8];
    proof {
        assert(v@ =~= lit_tcp_tail());
    }
    v
}

fn lit_http_tail_vec() -> (r: Vec<u8>)
    ensures
        r@ == lit_http_tail(),
{
    let v: Vec<u8> = vec![44u8, 34u8, 112u8, 114u8, 111u8, 116u8, 111u8, 34u8, 58u8, 34u8, 72u8, 116u8, 116u8, 112u8, 34u8, 125u8, 125u8];
    proof {
        assert(v@ =~= lit_http_tail());
    }
    v
}

fn lit_cauth_vec() -> (r: Vec<u8>)
    ensures
        r@ == lit_cauth(),
{
    let v: Vec<u8> = vec![123u8, 34u8, 65u8, 117u8, 116u8, 104u8, 101u8, 110u8, 116u8, 105u8, 99u8, 97u8, 116u8, 101u8, 34u8, 58u8, 34u8];
    proof {
        assert(v@ =~= lit_cauth());
    }
    v
}

fn lit_caccept_vec() -> (r: Vec<u8>)
    ensures
        r@ == lit_caccept(),
{
    let v: Vec<u8> = vec![123u8, 34u8, 65u8, 99u8, 99u8, 101u8, 112u8, 116u8, 34u8, 58u8, 34u8];
    proof {
        assert(v@ =~= lit_caccept());
    }
    v
}

fn lit_schallenge_vec() -> (r: Vec<u8>)
    ensures
        r@ == lit_schallenge(),
{
    let v: Vec<u8> = vec![123u8, 34u8, 67u8, 104u8, 97u8, 108u8, 108u8, 101u8, 110u8, 103u8, 101u8, 34u8, 58u8, 34u8];
    proof {
        assert(v@ =~= lit_schallenge());
    }
    v
}

fn lit_shello_vec() -> (r: Vec<u8>)
    ensures
        r@ == lit_shello(),
{
    let v: Vec<u8> = vec![123u8, 34u8, 72u8, 101u8, 108u8, 108u8, 111u8, 34u8, 58u8, 123u8, 34u8, 112u8, 117u8, 98u8, 108u8, 105u8, 99u8, 95u8, 112u8, 111u8, 114u8, 116u8, 34u8, 58u8];
    proof {
        assert(v@ =~= lit_shello());
    }
    v
}

fn lit_heartbeat_vec() -> (r: Vec<u8>)
    ensures
        r@ == lit_heartbeat(),
{
    let v: Vec<u8> = vec![34u8, 72u8, 101u8, 97u8, 114u8, 116u8, 98u8, 101u8, 97u8, 116u8, 34u8];
    proof {
        assert(v@ =~= lit_heartbeat());
    }
    v
}

fn lit_sconnection_vec() -> (r: Vec<u8>)
    ensures
        r@ == lit_sconnection(),
{
    let v: Vec<u8> = vec![123u8, 34u8, 67u8, 111u8, 110u8, 110u8, 101u8, 99u8, 116u8, 105u8, 111u8, 110u8, 34u8, 58u8, 34u8];
    proof {
        assert(v@ =~= lit_sconnection());
    }
    v
}

fn lit_serror_vec() -> (r: Vec<u8>)
    ensures
        r@ == lit_serror(),
{
    let v: Vec<u8> = vec![123u8, 34u8, 69u8, 114u8, 114u8, 111u8, 114u8, 34u8, 58u8, 34u8];
    proof {
        assert(v@ =~= lit_serror());
    }
    v
}

/// The lowercase hex digit of a nibble.
fn hex_digit_exec(v: u8) -> (r: u8)
    requires
        v < 16,
    ensures
        r == hex_digit(v as nat),
{
    if v < 10 {
        48 + v
    } else {
        87 + v
    }
}

/// Append the escaped form of one byte.
fn push_escaped(out: &mut Vec<u8>, b: u8)
    ensures
        final(out)@ == old(out)@ + esc_byte(b),
{
    if b == 34 {
        out.push(92);
        out.push(34);
        assert(final(out)@ =~= old(out)@ + esc_byte(b));
    } else if b == 92 {
        out.push(92);
        out.push(92);
        assert(final(out)@ =~= old(out)@ + esc_byte(b));
    } else if b < 32 {
        out.push(92);
        out.push(117);
        out.push(48);
        out.push(48);
        out.push(hex_digit_exec(b / 16));
        out.push(hex_digit_exec(b % 16));
        assert(final(out)@ =~= old(out)@ + esc_byte(b));
    } else {
        out.push(b);
        assert(final(out)@ =~= old(out)@ + esc_byte(b));
    }
}

/// Append the escaped form of a byte string.
fn append_escape(out: &mut Vec<u8>, s: &Vec<u8>)
    ensures
        final(out)@ == old(out)@ + spec_escape(s@),
{
    let mut i: usize = 0;
    while i < s.len()
        invariant
            i <= s@.len(),
            out@ == old(out)@ + spec_escape(s@.subrange(0, i as int)),
        decreases s@.len() - i,
    {
        let ghost pre = s@.subrange(0, i as int);
        push_escaped(out, s[i]);
        proof {
            assert(s@.subrange(0, i + 1) =~= pre + seq![s@[i as int]]);
            lemma_escape_append(pre, seq![s@[i as int]]);
            assert(spec_escape(seq![s@[i as int]]) =~= esc_byte(s@[i as int])) by {
                reveal_with_fuel(spec_escape, 3);
                assert(seq![s@[i as int]].skip(1) =~= Seq::<u8>::empty());
            }
            assert(out@ =~= old(out)@ + spec_escape(s@.subrange(0, i + 1)));
        }
        i = i + 1;
    }
    assert(s@.subrange(0, s@.len() as int) =~= s@);
}

/// The `k` lowercase hex digits of `v`, most significant first.
fn hexn_exec(v: u128, k: u8) -> (r: Vec<u8>)
    ensures
        r@ == hexn(v as nat, k as nat),
    decreases k,
{
    if k == 0 {
        Vec::new()
    } else {
        let mut r = hexn_exec(v / 16, k - 1);
        r.push(hex_digit_exec((v % 16) as u8));
        r
    }
}

/// Append `src[a..b]` to `dst`.
fn append_range(dst: &mut Vec<u8>, src: &Vec<u8>, a: usize, b: usize)
    requires
        a <= b <= src@.len(),
    ensures
        final(dst)@ == old(dst)@ + src@.subrange(a as int, b as int),
{
    let mut i: usize = a;
    while i < b
        invariant
            a <= i <= b <= src@.len(),
            dst@ == old(dst)@ + src@.subrange(a as int, i as int),
        decreases b - i,
    {
        dst.push(src[i]);
        assert(dst@ =~= old(dst)@ + src@.subrange(a as int, i + 1));
        i = i + 1;
    }
}

/// Append a UUID value in hyphenated lowercase hex.
fn append_uuid(out: &mut Vec<u8>, v: u128)
    ensures
        final(out)@ == old(out)@ + spec_uuid(v),
{
    let h = hexn_exec(v, 32);
    proof {
        assert(pow16(32) == 0x100000000000000000000000000000000) by {
            reveal_with_fuel(pow16, 33);
        }
        lemma_unhex_hexn(0, v as nat, 32);
    }
    append_range(out, &h, 0, 8);
    out.push(45);
    append_range(out, &h, 8, 12);
    out.push(45);
    append_range(out, &h, 12, 16);
    out.push(45);
    append_range(out, &h, 16, 20);
    out.push(45);
    append_range(out, &h, 20, 32);
    assert(final(out)@ =~= old(out)@ + spec_uuid(v));
}

/// The decimal digits of `n`.
fn dec_exec(n: u16) -> (r: Vec<u8>)
    ensures
        r@ == spec_dec(n as nat),
    decreases n,
{
    if n < 10 {
        let v: Vec<u8> = vec![48 + n as u8];
        proof {
            assert(v@ =~= spec_dec(n as nat));
        }
        v
    } else {
        let mut r = dec_exec(n / 10);
        r.push(48 + (n % 10) as u8);
        proof {
            assert(r@ =~= spec_dec(n as nat));
        }
        r
    }
}

/// Serialize a client message to its frame payload.
pub fn serialize_client(m: &ClientMsg) -> (r: Vec<u8>)
    ensures
        r@ == spec_ser_client(m@),
{
    let mut out: Vec<u8> = Vec::new();
    match m {
        ClientMsg::Hello { subdomain, proto } => {
            let lit = lit_chello_vec();
            crate::bytes::append_bytes(&mut out, lit.as_slice());
            append_escape(&mut out, subdomain);
            out.push(34);
            let tail = match proto {
                Proto::Tcp => lit_tcp_tail_vec(),
                Proto::Http => lit_http_tail_vec(),
            };
            crate::bytes::append_bytes(&mut out, tail.as_slice());
            assert(out@ =~= spec_ser_client(m@));
        },
        ClientMsg::Authenticate(tag) => {
            let lit = lit_cauth_vec();
            crate::bytes::append_bytes(&mut out, lit.as_slice());
            append_escape(&mut out, tag);
            out.push(34);
            out.push(125);
            assert(out@ =~= spec_ser_client(m@));
        },
        ClientMsg::Accept(id) => {
            let lit = lit_caccept_vec();
            crate::bytes::append_bytes(&mut out, lit.as_slice());
            append_uuid(&mut out, *id);
            out.push(34);
            out.push(125);
            assert(out@ =~= spec_ser_client(m@));
        },
    }
    out
}

/// Serialize a server message to its frame payload.
pub fn serialize_server(m: &ServerMsg) -> (r: Vec<u8>)
    ensures
        r@ == spec_ser_server(m@),
{
    let mut out: Vec<u8> = Vec::new();
    match m {
        ServerMsg::Challenge(id) => {
            let lit = lit_schallenge_vec();
            crate::bytes::append_bytes(&mut out, lit.as_slice());
            append_uuid(&mut out, *id);
            out.push(34);
            out.push(125);
            assert(out@ =~= spec_ser_server(m@));
        },
        ServerMsg::Hello { public_port } => {
            let lit = lit_shello_vec();
            crate::bytes::append_bytes(&mut out, lit.as_slice());
            let d = dec_exec(*public_port);
            crate::bytes::append_bytes(&mut out, d.as_slice());
            out.push(125);
            out.push(125);
            assert(out@ =~= spec_ser_server(m@));
        },
        ServerMsg::Heartbeat => {
            let lit = lit_heartbeat_vec();
            crate::bytes::append_bytes(&mut out, lit.as_slice());
            assert(out@ =~= spec_ser_server(m@));
        },
        ServerMsg::Connection(id) => {
            let lit = lit_sconnection_vec();
            crate::bytes::append_bytes(&mut out, lit.as_slice());
            append_uuid(&mut out, *id);
            out.push(34);
            out.push(125);
            assert(out@ =~= spec_ser_server(m@));
        },
        ServerMsg::Error(e) => {
            let lit = lit_serror_vec();
            crate::bytes::append_bytes(&mut out, lit.as_slice());
            append_escape(&mut out, e);
            out.push(34);
            out.push(125);
            assert(out@ =~= spec_ser_server(m@));
        },
    }
    out
}

// ── Executable parser ────────────────────────────────────────────────

fn is_hex_exec(c: u8) -> (r: bool)
    ensures
        r == is_hex_char(c),
{
    (48 <= c && c <= 57) || (97 <= c && c <= 102) || (65 <= c && c <= 70)
}

fn hex_val_exec(c: u8) -> (r: u8)
    requires
        is_hex_char(c),
    ensures
        r as nat == hex_val(c),
        r < 16,
{
    if 48 <= c && c <= 57 {
        c - 48
    } else if 97 <= c && c <= 102 {
        c - 87
    } else {
        c - 55
    }
}

fn is_digit_exec(c: u8) -> (r: bool)
    ensures
        r == is_digit(c),
{
    48 <= c && c <= 57
}

/// Does `p` begin `b`?
fn match_prefix(b: &Vec<u8>, p: &Vec<u8>) -> (r: bool)
    ensures
        r == prefixed(b@, p@),
{
    if p.len() > b.len() {
        return false;
    }
    let mut i: usize = 0;
    while i < p.len()
        invariant
            i <= p@.len() <= b@.len(),
            forall|j: int| 0 <= j < i ==> b@[j] == p@[j],
        decreases p@.len() - i,
    {
        if b[i] != p[i] {
            proof {
                if prefixed(b@, p@) {
                    assert(b@.subrange(0, p@.len() as int)[i as int] == b@[i as int]);
                }
            }
            return false;
        }
        i = i + 1;
    }
    proof {
        assert(b@.subrange(0, p@.len() as int) =~= p@);
    }
    true
}

/// Is the remainder of `b` from `i` on exactly `p`?
fn tail_eq(b: &Vec<u8>, i: usize, p: &Vec<u8>) -> (r: bool)
    requires
        i <= b@.len(),
    ensures
        r == (b@.skip(i as int) == p@),
{
    let ghost s = b@.skip(i as int);
    if b.len() - i != p.len() {
        proof {
            assert(s.len() != p@.len());
        }
        return false;
    }
    let n = b.len();
    let mut j: usize = 0;
    while j < p.len()
        invariant
            j <= p@.len(),
            n == b@.len(),
            i + p@.len() == b@.len(),
            i <= b@.len(),
            s == b@.skip(i as int),
            forall|q: int| 0 <= q < j ==> s[q] == p@[q],
        decreases p@.len() - j,
    {
        proof {
            assert(i + j < n);
        }
        if b[i + j] != p[j] {
            proof {
                assert(s[j as int] == b@[i + j]);
            }
            return false;
        }
        proof {
            assert(s[j as int] == b@[i + j]);
        }
        j = j + 1;
    }
    proof {
        assert(s =~= p@);
    }
    true
}

/// Read a JSON string's content beginning at `start` (just past the
/// opening quote): the decoded bytes and the index just past the closing
/// quote.
fn parse_str_rec(b: &Vec<u8>, start: usize) -> (r: Option<(Vec<u8>, usize)>)
    requires
        start <= b@.len(),
    ensures
        ({
            let sp = spec_parse_str(b@.skip(start as int));
            match r {
                Option::None => sp is None,
                Option::Some(p) => sp == Some((p.0@, p.1 as int - start as int)) && start < p.1
                    <= b@.len(),
            }
        }),
    decreases b@.len() - start,
{
    let ghost s = b@.skip(start as int);
    if start >= b.len() {
        return None;
    }
    let c = b[start];
    proof {
        assert(s[0] == c);
    }
    if c == 34 {
        proof {
            assert(spec_parse_str(s) == Some((Seq::<u8>::empty(), 1int)));
        }
        let out: Vec<u8> = Vec::new();
        return Some((out, start + 1));
    }
    if c == 92 {
        if start + 1 >= b.len() {
            proof {
                assert(s.len() < 2);
            }
            return None;
        }
        let e = b[start + 1];
        proof {
            assert(s[1] == e);
        }
        let v: u8;
        let k: usize;
        if e == 34 || e == 92 || e == 47 {
            v = e;
            k = 2;
        } else if e == 98 {
            v = 8;
            k = 2;
        } else if e == 116 {
            v = 9;
            k = 2;
        } else if e == 110 {
            v = 10;
            k = 2;
        } else if e == 102 {
            v = 12;
            k = 2;
        } else if e == 114 {
            v = 13;
            k = 2;
        } else if e == 117 {
            if b.len() - start < 6 {
                proof {
                    assert(s.len() < 6);
                }
                return None;
            }
            let d2 = b[start + 2];
            let d3 = b[start + 3];
            let d4 = b[start + 4];
            let d5 = b[start + 5];
            proof {
                assert(s[2] == d2 && s[3] == d3 && s[4] == d4 && s[5] == d5);
            }
            if d2 != 48 || d3 != 48 || !is_hex_exec(d4) || !is_hex_exec(d5) {
                return None;
            }
            v = hex_val_exec(d4) * 16 + hex_val_exec(d5);
            k = 6;
        } else {
            return None;
        }
        proof {
            assert(s.skip(k as int) =~= b@.skip(start + k));
            assert(spec_parse_str(s) == str_cons(v, spec_parse_str(b@.skip(start + k)), k as int));
        }
        match parse_str_rec(b, start + k) {
            Option::None => None,
            Option::Some(p) => {
                let (t, j) = p;
                let mut out: Vec<u8> = Vec::new();
                out.push(v);
                crate::bytes::append_bytes(&mut out, t.as_slice());
                proof {
                    assert(out@ =~= seq![v] + t@);
                }
                Some((out, j))
            },
        }
    } else if c < 32 {
        None
    } else {
        proof {
            assert(s.skip(1) =~= b@.skip(start + 1));
            assert(spec_parse_str(s) == str_cons(c, spec_parse_str(b@.skip(start + 1)), 1));
        }
        match parse_str_rec(b, start + 1) {
            Option::None => None,
            Option::Some(p) => {
                let (t, j) = p;
                let mut out: Vec<u8> = Vec::new();
                out.push(c);
                crate::bytes::append_bytes(&mut out, t.as_slice());
                proof {
                    assert(out@ =~= seq![c] + t@);
                }
                Some((out, j))
            },
        }
    }
}

/// Powers of 16 grow with the exponent.
proof fn lemma_pow16_mono(a: nat, b: nat)
    requires
        a <= b,
    ensures
        pow16(a) <= pow16(b),
    decreases b,
{
    if a < b {
        lemma_pow16_mono(a, (b - 1) as nat);
        assert(pow16(b) == 16 * pow16((b - 1) as nat));
    }
}

/// Fold the hex digits of `b[from..to]` onto `acc`, under a digit budget
/// `d` that keeps the accumulator within a `u128`.
fn read_seg(b: &Vec<u8>, from: usize, to: usize, acc: u128, Ghost(d): Ghost<nat>) -> (r: Option<
    u128,
>)
    requires
        from <= to <= b@.len(),
        (acc as nat) < pow16(d),
        d + (to - from) <= 32,
    ensures
        seg_hex(b@, from as int, to as int) ==> (r matches Some(v) && v as nat == unhex_acc(
            acc as nat,
            b@.subrange(from as int, to as int),
        ) && (v as nat) < pow16((d + (to - from)) as nat)),
        !seg_hex(b@, from as int, to as int) ==> r is None,
{
    let mut i: usize = from;
    let mut a: u128 = acc;
    proof {
        assert(b@.subrange(from as int, from as int) =~= Seq::<u8>::empty());
    }
    while i < to
        invariant
            from <= i <= to <= b@.len(),
            d + (to - from) <= 32,
            forall|p: int| from <= p < i ==> is_hex_char(#[trigger] b@[p]),
            (a as nat) == unhex_acc(acc as nat, b@.subrange(from as int, i as int)),
            (a as nat) < pow16((d + (i - from)) as nat),
        decreases to - i,
    {
        let c = b[i];
        if !is_hex_exec(c) {
            proof {
                assert(!is_hex_char(b@[i as int]));
            }
            return None;
        }
        let v = hex_val_exec(c);
        proof {
            let e = (d + (i - from)) as nat;
            assert(pow16((e + 1) as nat) == 16 * pow16(e));
            lemma_pow16_mono(e + 1, 32);
            assert(pow16(32) == 0x100000000000000000000000000000000) by {
                reveal_with_fuel(pow16, 33);
            }
            assert((a as nat) * 16 + (v as nat) < pow16((e + 1) as nat)) by (nonlinear_arith)
                requires
                    (a as nat) < pow16(e),
                    (v as nat) < 16,
                    pow16((e + 1) as nat) == 16 * pow16(e),
            ;
            let pre = b@.subrange(from as int, i as int);
            assert(b@.subrange(from as int, i + 1) =~= pre + seq![b@[i as int]]);
            lemma_unhex_acc_append(acc as nat, pre, seq![b@[i as int]]);
            lemma_unhex_one(a as nat, b@[i as int]);
        }
        a = a * 16 + (v as u128);
        i = i + 1;
    }
    Some(a)
}

/// Read a hyphenated UUID beginning at `start`.
#[verifier::rlimit(60)]
fn parse_uuid_exec(b: &Vec<u8>, start: usize) -> (r: Option<u128>)
    requires
        start <= b@.len(),
    ensures
        r == spec_parse_uuid(b@.skip(start as int)),
{
    let ghost s = b@.skip(start as int);
    if b.len() - start < 36 {
        proof {
            assert(s.len() < 36);
        }
        return None;
    }
    proof {
        assert forall|p: int| 0 <= p < 36 implies s[p] == b@[start + p] by {}
        assert(s.subrange(0, 8) =~= b@.subrange(start as int, start + 8));
        assert(s.subrange(9, 13) =~= b@.subrange(start + 9, start + 13));
        assert(s.subrange(14, 18) =~= b@.subrange(start + 14, start + 18));
        assert(s.subrange(19, 23) =~= b@.subrange(start + 19, start + 23));
        assert(s.subrange(24, 36) =~= b@.subrange(start + 24, start + 36));
        assert(seg_hex(b@, start as int, start + 8) == seg_hex(s, 0, 8)) by {
            if seg_hex(b@, start as int, start + 8) {
                assert forall|p: int| 0 <= p < 8 implies is_hex_char(#[trigger] s[p]) by {
                    assert(s[p] == b@[start + p]);
                }
            }
            if seg_hex(s, 0, 8) {
                assert forall|p: int| start <= p < start + 8 implies is_hex_char(
                    #[trigger] b@[p],
                ) by {
                    assert(s[p - start] == b@[p]);
                }
            }
        }
        assert(seg_hex(b@, start + 9, start + 13) == seg_hex(s, 9, 13)) by {
            if seg_hex(b@, start + 9, start + 13) {
                assert forall|p: int| 9 <= p < 13 implies is_hex_char(#[trigger] s[p]) by {
                    assert(s[p] == b@[start + p]);
                }
            }
            if seg_hex(s, 9, 13) {
                assert forall|p: int| start + 9 <= p < start + 13 implies is_hex_char(
                    #[trigger] b@[p],
                ) by {
                    assert(s[p - start] == b@[p]);
                }
            }
        }
        assert(seg_hex(b@, start + 14, start + 18) == seg_hex(s, 14, 18)) by {
            if seg_hex(b@, start + 14, start + 18) {
                assert forall|p: int| 14 <= p < 18 implies is_hex_char(#[trigger] s[p]) by {
                    assert(s[p] == b@[start + p]);
                }
            }
            if seg_hex(s, 14, 18) {
                assert forall|p: int| start + 14 <= p < start + 18 implies is_hex_char(
                    #[trigger] b@[p],
                ) by {
                    assert(s[p - start] == b@[p]);
                }
            }
        }
        assert(seg_hex(b@, start + 19, start + 23) == seg_hex(s, 19, 23)) by {
            if seg_hex(b@, start + 19, start + 23) {
                assert forall|p: int| 19 <= p < 23 implies is_hex_char(#[trigger] s[p]) by {
                    assert(s[p] == b@[start + p]);
                }
            }
            if seg_hex(s, 19, 23) {
                assert forall|p: int| start + 19 <= p < start + 23 implies is_hex_char(
                    #[trigger] b@[p],
                ) by {
                    assert(s[p - start] == b@[p]);
                }
            }
        }
        assert(seg_hex(b@, start + 24, start + 36) == seg_hex(s, 24, 36)) by {
            if seg_hex(b@, start + 24, start + 36) {
                assert forall|p: int| 24 <= p < 36 implies is_hex_char(#[trigger] s[p]) by {
                    assert(s[p] == b@[start + p]);
                }
            }
            if seg_hex(s, 24, 36) {
                assert forall|p: int| start + 24 <= p < start + 36 implies is_hex_char(
                    #[trigger] b@[p],
                ) by {
                    assert(s[p - start] == b@[p]);
                }
            }
        }
    }
    if b[start + 8] != 45 || b[start + 13] != 45 || b[start + 18] != 45 || b[start + 23] != 45 {
        return None;
    }
    proof {
        assert(pow16(0) == 1);
    }
    let r1 = match read_seg(b, start, start + 8, 0, Ghost(0nat)) {
        Option::Some(v) => v,
        Option::None => {
            return None;
        },
    };
    let r2 = match read_seg(b, start + 9, start + 13, r1, Ghost(8nat)) {
        Option::Some(v) => v,
        Option::None => {
            return None;
        },
    };
    let r3 = match read_seg(b, start + 14, start + 18, r2, Ghost(12nat)) {
        Option::Some(v) => v,
        Option::None => {
            return None;
        },
    };
    let r4 = match read_seg(b, start + 19, start + 23, r3, Ghost(16nat)) {
        Option::Some(v) => v,
        Option::None => {
            return None;
        },
    };
    let r5 = match read_seg(b, start + 24, start + 36, r4, Ghost(20nat)) {
        Option::Some(v) => v,
        Option::None => {
            return None;
        },
    };
    Some(r5)
}

/// A scan that sees `m` digits and then a non-digit (or the end) stops
/// exactly at `m`.
proof fn lemma_fnd_at(s: Seq<u8>, m: int)
    requires
        0 <= m <= s.len(),
        forall|p: int| 0 <= p < m ==> is_digit(#[trigger] s[p]),
        m == s.len() || !is_digit(s[m]),
    ensures
        first_non_digit(s) == m,
    decreases m,
{
    if m == 0 {
    } else {
        assert(is_digit(s[0]));
        assert forall|p: int| 0 <= p < m - 1 implies is_digit(#[trigger] s.skip(1)[p]) by {
            assert(s.skip(1)[p] == s[p + 1]);
        }
        if m < s.len() {
            assert(s.skip(1)[m - 1] == s[m]);
        }
        lemma_fnd_at(s.skip(1), m - 1);
    }
}

/// The digit scan stays within the sequence.
proof fn lemma_fnd_bounds(s: Seq<u8>)
    ensures
        0 <= first_non_digit(s) <= s.len(),
    decreases s.len(),
{
    if s.len() > 0 && is_digit(s[0]) {
        lemma_fnd_bounds(s.skip(1));
    }
}

/// A scan that has already seen `m` digits reaches at least `m`.
proof fn lemma_fnd_ge(s: Seq<u8>, m: int)
    requires
        0 <= m <= s.len(),
        forall|p: int| 0 <= p < m ==> is_digit(#[trigger] s[p]),
    ensures
        first_non_digit(s) >= m,
    decreases m,
{
    lemma_fnd_bounds(s);
    if m > 0 {
        assert(s.len() > 0);
        assert(is_digit(s[0]));
        assert(first_non_digit(s) == 1 + first_non_digit(s.skip(1)));
        assert forall|p: int| 0 <= p < m - 1 implies is_digit(#[trigger] s.skip(1)[p]) by {
            assert(s.skip(1)[p] == s[p + 1]);
        }
        lemma_fnd_ge(s.skip(1), m - 1);
    }
}

/// Read a `u16` beginning at `start`: the value and the index just past
/// its digits.
#[verifier::rlimit(60)]
fn parse_u16_exec(b: &Vec<u8>, start: usize) -> (r: Option<(u16, usize)>)
    requires
        start <= b@.len(),
    ensures
        ({
            let sp = spec_parse_u16(b@.skip(start as int));
            match r {
                Option::None => sp is None,
                Option::Some(p) => sp == Some((p.0, p.1 as int - start as int)) && start < p.1
                    <= b@.len(),
            }
        }),
{
    let ghost s = b@.skip(start as int);
    let n = b.len();
    if start >= n || !is_digit_exec(b[start]) {
        proof {
            if s.len() > 0 {
                assert(s[0] == b@[start as int]);
            }
            assert(first_non_digit(s) == 0);
        }
        return None;
    }
    proof {
        assert(s[0] == b@[start as int]);
    }
    if b[start] == 48 && start + 1 < n && is_digit_exec(b[start + 1]) {
        proof {
            assert(s[1] == b@[start + 1]);
            lemma_fnd_ge(s, 2);
        }
        return None;
    }
    let mut i: usize = start;
    let mut a: u32 = 0;
    proof {
        assert(s.subrange(0, 0) =~= Seq::<u8>::empty());
    }
    while i < n && is_digit_exec(b[i]) && a <= 65535
        invariant
            start <= i <= n,
            n == b@.len(),
            s == b@.skip(start as int),
            forall|p: int| 0 <= p < i - start ==> is_digit(#[trigger] s[p]),
            a as nat == undec_acc(0, s.subrange(0, i - start)),
        decreases n - i,
    {
        let dv = b[i] - 48;
        proof {
            assert(s[i - start] == b@[i as int]);
            assert(is_digit(b@[i as int]));
            let pre = s.subrange(0, i - start);
            assert(s.subrange(0, i - start + 1) =~= pre + seq![s[i - start]]);
            lemma_undec_acc_append(0, pre, seq![s[i - start]]);
            lemma_undec_one(a as nat, s[i - start]);
        }
        a = a * 10 + dv as u32;
        i = i + 1;
    }
    let ghost m = i - start;
    proof {
        assert(m >= 1) by {
            assert(is_digit(b@[start as int]));
        }
    }
    if a > 65535 {
        proof {
            let k = first_non_digit(s);
            lemma_fnd_bounds(s);
            lemma_fnd_ge(s, m as int);
            assert(s.subrange(0, k) =~= s.subrange(0, m as int) + s.subrange(m as int, k));
            lemma_undec_acc_append(0, s.subrange(0, m as int), s.subrange(m as int, k));
            lemma_undec_acc_lower(a as nat, s.subrange(m as int, k));
        }
        return None;
    }
    proof {
        if i < n {
            assert(s[m as int] == b@[i as int]);
        }
        lemma_fnd_at(s, m as int);
        if m > 1 {
            assert(s[0] != 48) by {
                if s[0] == 48 {
                    assert(s[1] == b@[start + 1]);
                }
            }
        }
    }
    Some((a as u16, i))
}

/// Read a client message out of one frame payload.
pub fn parse_client_msg(b: &Vec<u8>) -> (r: Option<ClientMsg>)
    ensures
        ({
            let sp = spec_parse_client(b@);
            match r {
                Option::None => sp is None,
                Option::Some(m) => sp == Some(m@),
            }
        }),
{
    let l_hello = lit_chello_vec();
    let l_auth = lit_cauth_vec();
    let l_accept = lit_caccept_vec();
    if match_prefix(b, &l_hello) {
        match parse_str_rec(b, 23) {
            Option::None => None,
            Option::Some(p) => {
                let (sub, j) = p;
                proof {
                    assert(b@.skip(23).skip(j as int - 23) =~= b@.skip(j as int));
                }
                let t_tcp = lit_tcp_tail_vec();
                let t_http = lit_http_tail_vec();
                if tail_eq(b, j, &t_tcp) {
                    Some(ClientMsg::Hello { subdomain: sub, proto: Proto::Tcp })
                } else if tail_eq(b, j, &t_http) {
                    Some(ClientMsg::Hello { subdomain: sub, proto: Proto::Http })
                } else {
                    None
                }
            },
        }
    } else if match_prefix(b, &l_auth) {
        match parse_str_rec(b, 17) {
            Option::None => None,
            Option::Some(p) => {
                let (tag, j) = p;
                proof {
                    assert(b@.skip(17).skip(j as int - 17) =~= b@.skip(j as int));
                }
                let close: Vec<u8> = vec![125u8];
                proof {
                    assert(close@ =~= seq![125u8]);
                }
                if tail_eq(b, j, &close) {
                    Some(ClientMsg::Authenticate(tag))
                } else {
                    None
                }
            },
        }
    } else if match_prefix(b, &l_accept) {
        match parse_uuid_exec(b, 11) {
            Option::None => None,
            Option::Some(v) => {
                proof {
                    assert(b@.skip(11).len() >= 36);
                    assert(b@.skip(11).skip(36) =~= b@.skip(47));
                }
                let close: Vec<u8> = vec![34u8, 125u8];
                proof {
                    assert(close@ =~= seq![34u8, 125u8]);
                }
                if tail_eq(b, 47, &close) {
                    Some(ClientMsg::Accept(v))
                } else {
                    None
                }
            },
        }
    } else {
        None
    }
}

/// Read a server message out of one frame payload.
pub fn parse_server_msg(b: &Vec<u8>) -> (r: Option<ServerMsg>)
    ensures
        ({
            let sp = spec_parse_server(b@);
            match r {
                Option::None => sp is None,
                Option::Some(m) => sp == Some(m@),
            }
        }),
{
    let l_heartbeat = lit_heartbeat_vec();
    let l_challenge = lit_schallenge_vec();
    let l_hello = lit_shello_vec();
    let l_connection = lit_sconnection_vec();
    let l_error = lit_serror_vec();
    proof {
        assert(b@.skip(0) =~= b@);
    }
    if tail_eq(b, 0, &l_heartbeat) {
        return Some(ServerMsg::Heartbeat);
    }
    if match_prefix(b, &l_challenge) {
        match parse_uuid_exec(b, 14) {
            Option::None => None,
            Option::Some(v) => {
                proof {
                    assert(b@.skip(14).len() >= 36);
                    assert(b@.skip(14).skip(36) =~= b@.skip(50));
                }
                let close: Vec<u8> = vec![34u8, 125u8];
                proof {
                    assert(close@ =~= seq![34u8, 125u8]);
                }
                if tail_eq(b, 50, &close) {
                    Some(ServerMsg::Challenge(v))
                } else {
                    None
                }
            },
        }
    } else if match_prefix(b, &l_hello) {
        match parse_u16_exec(b, 24) {
            Option::None => None,
            Option::Some(p) => {
                let (port, j) = p;
                proof {
                    assert(b@.skip(24).skip(j as int - 24) =~= b@.skip(j as int));
                }
                let close: Vec<u8> = vec![125u8, 125u8];
                proof {
                    assert(close@ =~= seq![125u8, 125u8]);
                }
                if tail_eq(b, j, &close) {
                    Some(ServerMsg::Hello { public_port: port })
                } else {
                    None
                }
            },
        }
    } else if match_prefix(b, &l_connection) {
        match parse_uuid_exec(b, 15) {
            Option::None => None,
            Option::Some(v) => {
                proof {
                    assert(b@.skip(15).len() >= 36);
                    assert(b@.skip(15).skip(36) =~= b@.skip(51));
                }
                let close: Vec<u8> = vec![34u8, 125u8];
                proof {
                    assert(close@ =~= seq![34u8, 125u8]);
                }
                if tail_eq(b, 51, &close) {
                    Some(ServerMsg::Connection(v))
                } else {
                    None
                }
            },
        }
    } else if match_prefix(b, &l_error) {
        match parse_str_rec(b, 10) {
            Option::None => None,
            Option::Some(p) => {
                let (e, j) = p;
                proof {
                    assert(b@.skip(10).skip(j as int - 10) =~= b@.skip(j as int));
                }
                let close: Vec<u8> = vec![125u8];
                proof {
                    assert(close@ =~= seq![125u8]);
                }
                if tail_eq(b, j, &close) {
                    Some(ServerMsg::Error(e))
                } else {
                    None
                }
            },
        }
    } else {
        None
    }
}

} // verus!
