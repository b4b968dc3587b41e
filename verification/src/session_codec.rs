//! The on-disk session cache: a one-object JSON text with the bundle's
//! five fields, written and read byte by byte like the project record.
//!
//! The expiry instant is a plain decimal number; the parser reads back
//! exactly what the printer emits (`lemma_bundle_round_trip`).

use vstd::prelude::*;

use crate::codec::{
    bytes_match, bytes_to_string, end_tag, esc, escape_into, lemma_unesc_esc, str_bytes, unesc,
    unescape_prefix,
};
use crate::session::SessionBundle;

verus! {

/// An ASCII decimal digit.
pub open spec fn is_digit(b: u8) -> bool {
    0x30 <= b <= 0x39
}

/// The decimal digits of a number, most significant first.
pub open spec fn dec_bytes(n: nat) -> Seq<u8>
    decreases n,
{
    if n < 10 {
        seq![(0x30 + n) as u8]
    } else {
        dec_bytes(n / 10).push((0x30 + n % 10) as u8)
    }
}

/// The value of a digit string read onto an accumulator.
pub open spec fn fold_digits(acc: nat, d: Seq<u8>) -> nat
    decreases d.len(),
{
    if d.len() == 0 {
        acc
    } else {
        fold_digits(acc * 10 + (d.first() - 0x30) as nat, d.drop_first())
    }
}

/// Reads the longest digit prefix onto an accumulator: the value and the
/// remainder.
pub open spec fn take_digits(s: Seq<u8>, acc: nat) -> (nat, Seq<u8>)
    decreases s.len(),
{
    if s.len() > 0 && is_digit(s.first()) {
        take_digits(s.drop_first(), acc * 10 + (s.first() - 0x30) as nat)
    } else {
        (acc, s)
    }
}

/// Reads a canonically written number: at least one digit, and a leading
/// zero only as the whole number.
pub open spec fn take_number(s: Seq<u8>) -> Option<(nat, Seq<u8>)> {
    if s.len() == 0 || !is_digit(s.first()) {
        None
    } else if s.first() == 0x30 {
        Some((0, s.drop_first()))
    } else {
        Some(take_digits(s, 0))
    }
}

/// Every digit string is made of digits, is nonempty, and leads with a
/// nonzero digit unless the number is zero.
pub proof fn lemma_dec_bytes_shape(n: nat)
    ensures
        dec_bytes(n).len() >= 1,
        forall|i: int| 0 <= i < dec_bytes(n).len() ==> is_digit(#[trigger] dec_bytes(n)[i]),
        n >= 1 ==> dec_bytes(n).first() != 0x30,
    decreases n,
{
    if n >= 10 {
        lemma_dec_bytes_shape(n / 10);
        assert forall|i: int|
            0 <= i < dec_bytes(n).len() implies is_digit(#[trigger] dec_bytes(n)[i]) by {
            if i < dec_bytes(n / 10).len() {
                assert(dec_bytes(n)[i] == dec_bytes(n / 10)[i]);
            }
        }
        assert(dec_bytes(n).first() == dec_bytes(n / 10).first());
    }
}

/// Reading a digit string followed by a non-digit remainder folds the
/// digits and leaves the remainder.
pub proof fn lemma_take_digits_concat(d: Seq<u8>, rest: Seq<u8>, acc: nat)
    requires
        forall|i: int| 0 <= i < d.len() ==> is_digit(#[trigger] d[i]),
        rest.len() == 0 || !is_digit(rest.first()),
    ensures
        take_digits(d + rest, acc) == (fold_digits(acc, d), rest),
    decreases d.len(),
{
    if d.len() == 0 {
        assert(d + rest =~= rest);
    } else {
        assert((d + rest).first() == d.first());
        assert((d + rest).drop_first() =~= d.drop_first() + rest);
        assert(forall|i: int|
            0 <= i < d.drop_first().len() ==> is_digit(#[trigger] d.drop_first()[i]));
        lemma_take_digits_concat(d.drop_first(), rest, acc * 10 + (d.first() - 0x30) as nat);
    }
}

/// Folding one more digit multiplies by ten and adds it.
pub proof fn lemma_fold_push(acc: nat, d: Seq<u8>, x: u8)
    ensures
        fold_digits(acc, d.push(x)) == fold_digits(acc, d) * 10 + (x - 0x30) as nat,
    decreases d.len(),
{
    if d.len() == 0 {
        assert(d.push(x).first() == x);
        assert(d.push(x).drop_first() =~= Seq::<u8>::empty());
        assert(fold_digits(acc, d.push(x)) == fold_digits(
            acc * 10 + (x - 0x30) as nat,
            d.push(x).drop_first(),
        ));
        assert(fold_digits(acc * 10 + (x - 0x30) as nat, Seq::<u8>::empty()) == acc * 10 + (x
            - 0x30) as nat);
        assert(fold_digits(acc, d) == acc);
    } else {
        assert(d.push(x).first() == d.first());
        assert(d.push(x).drop_first() =~= d.drop_first().push(x));
        lemma_fold_push(acc * 10 + (d.first() - 0x30) as nat, d.drop_first(), x);
        assert(fold_digits(acc, d.push(x)) == fold_digits(
            acc * 10 + (d.first() - 0x30) as nat,
            d.drop_first().push(x),
        ));
        assert(fold_digits(acc, d) == fold_digits(
            acc * 10 + (d.first() - 0x30) as nat,
            d.drop_first(),
        ));
    }
}

/// A number's own digit string folds back to the number.
pub proof fn lemma_fold_dec(n: nat)
    ensures
        fold_digits(0, dec_bytes(n)) == n,
    decreases n,
{
    if n < 10 {
        assert(dec_bytes(n) =~= seq![(0x30 + n) as u8]);
        assert(dec_bytes(n).first() == (0x30 + n) as u8);
        assert(dec_bytes(n).drop_first() =~= Seq::<u8>::empty());
        assert(fold_digits(0, dec_bytes(n)) == fold_digits(
            ((0x30 + n) as u8 - 0x30) as nat,
            dec_bytes(n).drop_first(),
        ));
        assert((((0x30 + n) as u8) - 0x30) as nat == n);
    } else {
        lemma_fold_dec(n / 10);
        lemma_fold_push(0, dec_bytes(n / 10), (0x30 + n % 10) as u8);
        assert((((0x30 + n % 10) as u8) - 0x30) as nat == n % 10);
    }
}

/// Reading back a printed number yields the number and what follows it.
pub proof fn lemma_take_number_dec(n: nat, rest: Seq<u8>)
    requires
        rest.len() == 0 || !is_digit(rest.first()),
    ensures
        take_number(dec_bytes(n) + rest) == Some((n, rest)),
{
    let s = dec_bytes(n) + rest;
    lemma_dec_bytes_shape(n);
    assert(s.first() == dec_bytes(n).first());
    if n == 0 {
        assert(dec_bytes(0) =~= seq![0x30u8]);
        assert(s.first() == 0x30);
        assert(s.drop_first() =~= rest);
    } else {
        assert(s.first() != 0x30);
        lemma_take_digits_concat(dec_bytes(n), rest, 0);
        lemma_fold_dec(n);
    }
}

/// The folded value never falls below the accumulator.
pub proof fn lemma_take_digits_lower(s: Seq<u8>, acc: nat)
    ensures
        take_digits(s, acc).0 >= acc,
    decreases s.len(),
{
    if s.len() > 0 && is_digit(s.first()) {
        lemma_take_digits_lower(s.drop_first(), acc * 10 + (s.first() - 0x30) as nat);
    }
}

/// Prints a number in decimal digits.
pub fn u64_dec_bytes(n: u64) -> (r: Vec<u8>)
    ensures
        r@ == dec_bytes(n as nat),
    decreases n,
{
    if n < 10 {
        let mut out: Vec<u8> = Vec::new();
        out.push(0x30 + (n as u8));
        proof {
            assert(out@ =~= dec_bytes(n as nat));
        }
        out
    } else {
        let mut out = u64_dec_bytes(n / 10);
        out.push(0x30 + ((n % 10) as u8));
        proof {
            assert(out@ =~= dec_bytes(n as nat));
        }
        out
    }
}

/// Reads a canonically written number starting at `from`: the value and
/// the position after its last digit, or nothing when no number stands
/// there or it does not fit the expiry field's width.
pub(crate) fn parse_u64_at(s: &Vec<u8>, from: usize) -> (r: Option<(u64, usize)>)
    requires
        from <= s@.len(),
    ensures
        match r {
            Some(p) => from <= p.1 <= s@.len() && take_number(s@.skip(from as int)) == Some(
                ((p.0 as nat), s@.skip(p.1 as int)),
            ),
            None => take_number(s@.skip(from as int)) is None || (take_number(
                s@.skip(from as int),
            ) matches Some(q) && q.0 > u64::MAX),
        },
{
    let n = s.len();
    if from == n {
        return None;
    }
    let first = s[from];
    proof {
        assert(s@.skip(from as int).first() == s@[from as int]);
    }
    if first < 0x30 || first > 0x39 {
        return None;
    }
    if first == 0x30 {
        proof {
            assert(s@.skip(from as int).drop_first() =~= s@.skip(from + 1));
        }
        return Some((0, from + 1));
    }
    let mut acc: u64 = 0;
    let mut i: usize = from;
    while i < n && s[i] >= 0x30 && s[i] <= 0x39
        invariant
            n == s@.len(),
            from <= i <= n,
            s@.skip(from as int).len() > 0,
            is_digit(s@.skip(from as int).first()),
            s@.skip(from as int).first() != 0x30,
            take_digits(s@.skip(from as int), 0) == take_digits(s@.skip(i as int), acc as nat),
        decreases n - i,
    {
        let d = s[i] - 0x30;
        proof {
            assert(s@.skip(i as int).first() == s@[i as int]);
            assert(s@.skip(i as int).drop_first() =~= s@.skip(i + 1));
        }
        if acc > (u64::MAX - (d as u64)) / 10 {
            // The number runs past the field's width: its value exceeds
            // what any continuation could bring back down.
            proof {
                let big = acc as nat * 10 + d as nat;
                assert(big > u64::MAX) by (nonlinear_arith)
                    requires
                        acc as nat > ((u64::MAX - (d as u64)) / 10) as nat,
                        d < 10,
                        big == acc as nat * 10 + d as nat,
                {}
                lemma_take_digits_lower(s@.skip(i + 1), big);
                assert(take_digits(s@.skip(i as int), acc as nat) == take_digits(
                    s@.skip(i + 1),
                    big,
                ));
                assert(take_number(s@.skip(from as int)) == Some(
                    take_digits(s@.skip(from as int), 0),
                ));
            }
            return None;
        }
        acc = acc * 10 + (d as u64);
        i += 1;
    }
    proof {
        if i < n {
            assert(s@.skip(i as int).first() == s@[i as int]);
            assert(!is_digit(s@.skip(i as int).first()));
        } else {
            assert(s@.skip(i as int).len() == 0);
        }
        assert(take_digits(s@.skip(i as int), acc as nat) == (acc as nat, s@.skip(i as int)));
    }
    Some((acc, i))
}


/// The bytes before the session token: `{"session_token":"`.
pub open spec fn t_open() -> Seq<u8> {
    vstd::utf8::encode_utf8("{\"session_token\":\""@)
}

/// The bytes between the session token's closing quote and the secondary
/// token's value: `,"secondary_token":`.
pub open spec fn t_sec() -> Seq<u8> {
    vstd::utf8::encode_utf8(",\"secondary_token\":"@)
}

/// The bytes before the CSRF token: `,"csrf_token":"`.
pub open spec fn t_csrf() -> Seq<u8> {
    vstd::utf8::encode_utf8(",\"csrf_token\":\""@)
}

/// The bytes before the account identifier: `,"account_identifier":"`.
pub open spec fn t_acct() -> Seq<u8> {
    vstd::utf8::encode_utf8(",\"account_identifier\":\""@)
}

/// The bytes before the expiry instant: `,"expires_at":`.
pub open spec fn t_exp() -> Seq<u8> {
    vstd::utf8::encode_utf8(",\"expires_at\":"@)
}

/// The bytes of an absent secondary token: `null`.
pub open spec fn null_lit() -> Seq<u8> {
    vstd::utf8::encode_utf8("null"@)
}

/// The secondary token's bytes: `null`, or the quoted escaped value.
pub open spec fn sec_bytes(o: Option<String>) -> Seq<u8> {
    match o {
        None => null_lit(),
        Some(s) => seq![0x22u8] + esc(str_bytes(s)) + seq![0x22u8],
    }
}

/// The cache record the library writes for a bundle.
pub open spec fn bundle_record(b: SessionBundle) -> Seq<u8> {
    t_open() + esc(str_bytes(b.session_token)) + seq![0x22u8] + t_sec() + sec_bytes(
        b.secondary_token,
    ) + t_csrf() + esc(str_bytes(b.csrf_token)) + seq![0x22u8] + t_acct() + esc(
        str_bytes(b.account_identifier),
    ) + seq![0x22u8] + t_exp() + dec_bytes(b.expires_at as nat) + end_tag()
}

/// A bundle record's raw fields.
pub struct BundleBytes {
    pub session: Seq<u8>,
    pub secondary: Option<Seq<u8>>,
    pub csrf: Seq<u8>,
    pub account: Seq<u8>,
    pub expires: nat,
}

/// Reads the secondary token's value: `null`, or a quoted string.
pub open spec fn decode_secondary(s: Seq<u8>) -> Option<(Option<Seq<u8>>, Seq<u8>)> {
    if s.len() >= null_lit().len() && s.take(null_lit().len() as int) == null_lit() {
        Some((None, s.skip(null_lit().len() as int)))
    } else if s.len() >= 1 && s.first() == 0x22 {
        match unesc(s.drop_first()) {
            Some(p) => Some((Some(p.0), p.1)),
            None => None,
        }
    } else {
        None
    }
}

/// Reads a cache record back into its raw fields: each tag in place,
/// each string read to its closing quote, the expiry a canonical number
/// of the field's width, and nothing after the closing brace.
pub open spec fn decode_bundle(s: Seq<u8>) -> Option<BundleBytes> {
    if s.len() >= t_open().len() && s.take(t_open().len() as int) == t_open() {
        match unesc(s.skip(t_open().len() as int)) {
            Some(p1) => if p1.1.len() >= t_sec().len() && p1.1.take(t_sec().len() as int)
                == t_sec() {
                match decode_secondary(p1.1.skip(t_sec().len() as int)) {
                    Some(p2) => if p2.1.len() >= t_csrf().len() && p2.1.take(
                        t_csrf().len() as int,
                    ) == t_csrf() {
                        match unesc(p2.1.skip(t_csrf().len() as int)) {
                            Some(p3) => if p3.1.len() >= t_acct().len() && p3.1.take(
                                t_acct().len() as int,
                            ) == t_acct() {
                                match unesc(p3.1.skip(t_acct().len() as int)) {
                                    Some(p4) => if p4.1.len() >= t_exp().len() && p4.1.take(
                                        t_exp().len() as int,
                                    ) == t_exp() {
                                        match take_number(p4.1.skip(t_exp().len() as int)) {
                                            Some(p5) => if p5.0 <= u64::MAX && p5.1 == end_tag() {
                                                Some(
                                                    BundleBytes {
                                                        session: p1.0,
                                                        secondary: p2.0,
                                                        csrf: p3.0,
                                                        account: p4.0,
                                                        expires: p5.0,
                                                    },
                                                )
                                            } else {
                                                None
                                            },
                                            None => None,
                                        }
                                    } else {
                                        None
                                    },
                                    None => None,
                                }
                            } else {
                                None
                            },
                            None => None,
                        }
                    } else {
                        None
                    },
                    None => None,
                }
            } else {
                None
            },
            None => None,
        }
    } else {
        None
    }
}

/// A cache record's fields as text.
pub struct BundleText {
    pub session: Seq<char>,
    pub secondary: Option<Seq<char>>,
    pub csrf: Seq<char>,
    pub account: Seq<char>,
    pub expires: nat,
}

/// The record's fields as text, when it reads back and every string
/// field is valid UTF-8.
pub open spec fn bundle_text(s: Seq<u8>) -> Option<BundleText> {
    match decode_bundle(s) {
        Some(f) => {
            let sec_ok = match f.secondary {
                Some(x) => vstd::utf8::valid_utf8(x),
                None => true,
            };
            if vstd::utf8::valid_utf8(f.session) && sec_ok && vstd::utf8::valid_utf8(f.csrf)
                && vstd::utf8::valid_utf8(f.account) {
                Some(
                    BundleText {
                        session: vstd::utf8::decode_utf8(f.session),
                        secondary: match f.secondary {
                            Some(x) => Some(vstd::utf8::decode_utf8(x)),
                            None => None,
                        },
                        csrf: vstd::utf8::decode_utf8(f.csrf),
                        account: vstd::utf8::decode_utf8(f.account),
                        expires: f.expires,
                    },
                )
            } else {
                None
            }
        },
        None => None,
    }
}

/// A bundle's fields, as the text its own record reads back to.
pub open spec fn bundle_fields(b: SessionBundle) -> BundleText {
    BundleText {
        session: b.session_token@,
        secondary: match b.secondary_token {
            Some(s) => Some(s@),
            None => None,
        },
        csrf: b.csrf_token@,
        account: b.account_identifier@,
        expires: b.expires_at as nat,
    }
}


/// Appends a byte slice.
fn append_bytes(out: &mut Vec<u8>, pat: &[u8])
    ensures
        final (out)@ == old(out)@ + pat@,
{
    let ghost base = out@;
    let n = pat.len();
    let mut k: usize = 0;
    while k < n
        invariant
            n == pat@.len(),
            k <= n,
            out@ == base + pat@.take(k as int),
        decreases n - k,
    {
        out.push(pat[k]);
        proof {
            assert(out@ =~= base + pat@.take(k + 1));
        }
        k += 1;
    }
    proof {
        assert(base + pat@.take(n as int) =~= base + pat@);
    }
}

/// Prints the cache record for a bundle.
pub fn encode_bundle(b: &SessionBundle) -> (r: Vec<u8>)
    ensures
        r@ == bundle_record(*b),
{
    let mut out: Vec<u8> = Vec::new();
    append_bytes(&mut out, "{\"session_token\":\"".as_bytes());
    let stb = b.session_token.as_str().as_bytes_vec();
    escape_into(&mut out, &stb);
    out.push(0x22);
    append_bytes(&mut out, ",\"secondary_token\":".as_bytes());
    match &b.secondary_token {
        None => {
            append_bytes(&mut out, "null".as_bytes());
        },
        Some(s) => {
            out.push(0x22);
            let sb = s.as_str().as_bytes_vec();
            escape_into(&mut out, &sb);
            out.push(0x22);
        },
    }
    append_bytes(&mut out, ",\"csrf_token\":\"".as_bytes());
    let cb = b.csrf_token.as_str().as_bytes_vec();
    escape_into(&mut out, &cb);
    out.push(0x22);
    append_bytes(&mut out, ",\"account_identifier\":\"".as_bytes());
    let ab = b.account_identifier.as_str().as_bytes_vec();
    escape_into(&mut out, &ab);
    out.push(0x22);
    append_bytes(&mut out, ",\"expires_at\":".as_bytes());
    let eb = u64_dec_bytes(b.expires_at);
    append_bytes(&mut out, eb.as_slice());
    out.push(0x7D);
    proof {
        assert(out@ =~= bundle_record(*b));
    }
    out
}

/// Reads a cache record back into a bundle. The result is exactly what
/// `bundle_text` says of the bytes.
pub fn parse_bundle(s: &Vec<u8>) -> (r: Option<SessionBundle>)
    ensures
        match r {
            Some(b) => bundle_text(s@) == Some(bundle_fields(b)),
            None => bundle_text(s@) is None,
        },
{
    broadcast use vstd::utf8::encode_utf8_decode_utf8;

    let n = s.len();
    let open = "{\"session_token\":\"".as_bytes_vec();
    if !bytes_match(s, 0, &open) {
        proof {
            if s@.len() >= t_open().len() {
                assert(s@.subrange(0, t_open().len() as int) =~= s@.take(t_open().len() as int));
            }
        }
        return None;
    }
    proof {
        assert(s@.subrange(0, t_open().len() as int) =~= s@.take(t_open().len() as int));
    }
    let (session_b, j1) = match unescape_prefix(s, open.len()) {
        Some(p) => p,
        None => {
            return None;
        },
    };
    let ghost r1 = s@.skip(j1 as int);
    let sec_tag = ",\"secondary_token\":".as_bytes_vec();
    if !bytes_match(s, j1, &sec_tag) {
        proof {
            if r1.len() >= t_sec().len() {
                assert(s@.subrange(j1 as int, j1 + t_sec().len()) =~= r1.take(
                    t_sec().len() as int,
                ));
            }
        }
        return None;
    }
    proof {
        assert(j1 + sec_tag@.len() <= n);
    }
    let j2 = j1 + sec_tag.len();
    proof {
        assert(s@.subrange(j1 as int, j1 + t_sec().len()) =~= r1.take(t_sec().len() as int));
        assert(r1.skip(t_sec().len() as int) =~= s@.skip(j2 as int));
    }
    let ghost r2 = s@.skip(j2 as int);
    let null_word = "null".as_bytes_vec();
    let secondary_b: Option<Vec<u8>>;
    let j3: usize;
    if bytes_match(s, j2, &null_word) {
        proof {
            assert(s@.subrange(j2 as int, j2 + null_lit().len()) =~= r2.take(
                null_lit().len() as int,
            ));
        }
        proof {
            assert(j2 + null_word@.len() <= n);
        }
        secondary_b = None;
        j3 = j2 + null_word.len();
        proof {
            assert(r2.skip(null_lit().len() as int) =~= s@.skip(j3 as int));
        }
    } else if j2 < s.len() && s[j2] == 0x22 {
        proof {
            if r2.len() >= null_lit().len() {
                assert(s@.subrange(j2 as int, j2 + null_lit().len()) =~= r2.take(
                    null_lit().len() as int,
                ));
            }
            assert(r2.first() == s@[j2 as int]);
            assert(r2.drop_first() =~= s@.skip(j2 + 1));
        }
        match unescape_prefix(s, j2 + 1) {
            Some((sec, j)) => {
                secondary_b = Some(sec);
                j3 = j;
            },
            None => {
                return None;
            },
        }
    } else {
        proof {
            if r2.len() >= null_lit().len() {
                assert(s@.subrange(j2 as int, j2 + null_lit().len()) =~= r2.take(
                    null_lit().len() as int,
                ));
            }
            if r2.len() >= 1 {
                assert(r2.first() == s@[j2 as int]);
            }
        }
        return None;
    }
    let ghost r3 = s@.skip(j3 as int);
    let csrf_tag = ",\"csrf_token\":\"".as_bytes_vec();
    if !bytes_match(s, j3, &csrf_tag) {
        proof {
            if r3.len() >= t_csrf().len() {
                assert(s@.subrange(j3 as int, j3 + t_csrf().len()) =~= r3.take(
                    t_csrf().len() as int,
                ));
            }
        }
        return None;
    }
    proof {
        assert(s@.subrange(j3 as int, j3 + t_csrf().len()) =~= r3.take(t_csrf().len() as int));
        assert(r3.skip(t_csrf().len() as int) =~= s@.skip(j3 + t_csrf().len()));
    }
    proof {
        assert(j3 + csrf_tag@.len() <= n);
    }
    let (csrf_b, j4) = match unescape_prefix(s, j3 + csrf_tag.len()) {
        Some(p) => p,
        None => {
            return None;
        },
    };
    let ghost r4 = s@.skip(j4 as int);
    let acct_tag = ",\"account_identifier\":\"".as_bytes_vec();
    if !bytes_match(s, j4, &acct_tag) {
        proof {
            if r4.len() >= t_acct().len() {
                assert(s@.subrange(j4 as int, j4 + t_acct().len()) =~= r4.take(
                    t_acct().len() as int,
                ));
            }
        }
        return None;
    }
    proof {
        assert(s@.subrange(j4 as int, j4 + t_acct().len()) =~= r4.take(t_acct().len() as int));
        assert(r4.skip(t_acct().len() as int) =~= s@.skip(j4 + t_acct().len()));
    }
    proof {
        assert(j4 + acct_tag@.len() <= n);
    }
    let (acct_b, j5) = match unescape_prefix(s, j4 + acct_tag.len()) {
        Some(p) => p,
        None => {
            return None;
        },
    };
    let ghost r5 = s@.skip(j5 as int);
    let exp_tag = ",\"expires_at\":".as_bytes_vec();
    if !bytes_match(s, j5, &exp_tag) {
        proof {
            if r5.len() >= t_exp().len() {
                assert(s@.subrange(j5 as int, j5 + t_exp().len()) =~= r5.take(
                    t_exp().len() as int,
                ));
            }
        }
        return None;
    }
    proof {
        assert(j5 + exp_tag@.len() <= n);
    }
    let j6 = j5 + exp_tag.len();
    proof {
        assert(s@.subrange(j5 as int, j5 + t_exp().len()) =~= r5.take(t_exp().len() as int));
        assert(r5.skip(t_exp().len() as int) =~= s@.skip(j6 as int));
    }
    let (expires, j7) = match parse_u64_at(s, j6) {
        Some(p) => p,
        None => {
            return None;
        },
    };
    let ghost r7 = s@.skip(j7 as int);
    if !(j7 == n - 1 && s[j7] == 0x7D) {
        proof {
            if r7 == end_tag() {
                assert(r7.len() == 1);
                assert(r7[0] == s@[j7 as int]);
            }
        }
        return None;
    }
    proof {
        assert(r7 =~= end_tag());
    }
    let session_token = match bytes_to_string(session_b) {
        Some(t) => t,
        None => {
            return None;
        },
    };
    let secondary_token = match secondary_b {
        None => None,
        Some(sec) => match bytes_to_string(sec) {
            Some(t) => Some(t),
            None => {
                return None;
            },
        },
    };
    let csrf_token = match bytes_to_string(csrf_b) {
        Some(t) => t,
        None => {
            return None;
        },
    };
    let account_identifier = match bytes_to_string(acct_b) {
        Some(t) => t,
        None => {
            return None;
        },
    };
    Some(
        SessionBundle {
            session_token,
            secondary_token,
            csrf_token,
            account_identifier,
            expires_at: expires,
        },
    )
}


/// A printed cache record reads back to the bundle's own fields.
#[verifier::rlimit(60)]
pub proof fn lemma_bundle_round_trip(b: SessionBundle)
    ensures
        bundle_text(bundle_record(b)) == Some(bundle_fields(b)),
{
    broadcast use vstd::utf8::encode_utf8_valid_utf8;
    broadcast use vstd::utf8::encode_utf8_decode_utf8;
    broadcast use vstd::utf8::is_ascii_chars_encode_utf8;

    let s = bundle_record(b);
    let q = seq![0x22u8];
    let st = esc(str_bytes(b.session_token));
    let sec = sec_bytes(b.secondary_token);
    let cs = esc(str_bytes(b.csrf_token));
    let ac = esc(str_bytes(b.account_identifier));
    let num = dec_bytes(b.expires_at as nat);
    let rest5 = t_exp() + num + end_tag();
    let rest4 = t_acct() + ac + q + rest5;
    let rest3 = t_csrf() + cs + q + rest4;
    let r1 = t_sec() + sec + rest3;

    // The opening tag, then the session token.
    assert(s.take(t_open().len() as int) =~= t_open());
    assert(s.skip(t_open().len() as int) =~= st + q + r1);
    lemma_unesc_esc(str_bytes(b.session_token), r1);
    assert(unesc(s.skip(t_open().len() as int)) == Some((str_bytes(b.session_token), r1)));

    // The secondary token: null, or a quoted escaped string.
    assert(r1.take(t_sec().len() as int) =~= t_sec());
    let r2 = r1.skip(t_sec().len() as int);
    assert(r2 =~= sec + rest3);
    match b.secondary_token {
        None => {
            assert(sec == null_lit());
            assert(r2.take(null_lit().len() as int) =~= null_lit());
            assert(r2.skip(null_lit().len() as int) =~= rest3);
            assert(decode_secondary(r2) == Some((None::<Seq<u8>>, rest3)));
        },
        Some(x) => {
            reveal_strlit("null");
            assert(vstd::utf8::is_ascii_chars("null"@));
            assert(null_lit().len() == 4);
            assert(null_lit()[0] == 'n' as u8);
            assert(sec =~= q + (esc(str_bytes(x)) + q));
            assert(r2.first() == 0x22);
            if r2.len() >= null_lit().len() && r2.take(null_lit().len() as int) == null_lit() {
                assert(r2.take(null_lit().len() as int)[0] == r2[0]);
            }
            assert(r2.drop_first() =~= esc(str_bytes(x)) + q + rest3);
            lemma_unesc_esc(str_bytes(x), rest3);
            assert(decode_secondary(r2) == Some((Some(str_bytes(x)), rest3)));
        },
    }

    // The CSRF token.
    assert(rest3.take(t_csrf().len() as int) =~= t_csrf());
    assert(rest3.skip(t_csrf().len() as int) =~= cs + q + rest4);
    lemma_unesc_esc(str_bytes(b.csrf_token), rest4);

    // The account identifier.
    assert(rest4.take(t_acct().len() as int) =~= t_acct());
    assert(rest4.skip(t_acct().len() as int) =~= ac + q + rest5);
    lemma_unesc_esc(str_bytes(b.account_identifier), rest5);

    // The expiry instant, then the closing brace.
    assert(rest5.take(t_exp().len() as int) =~= t_exp());
    assert(rest5.skip(t_exp().len() as int) =~= num + end_tag());
    assert(end_tag().first() == 0x7D);
    lemma_take_number_dec(b.expires_at as nat, end_tag());
    assert(b.expires_at as nat <= u64::MAX);

    assert(decode_bundle(s) matches Some(f) && f.session == str_bytes(b.session_token)
        && f.csrf == str_bytes(b.csrf_token) && f.account == str_bytes(b.account_identifier)
        && f.expires == b.expires_at as nat);
}

} // verus!
