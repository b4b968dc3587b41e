//! The on-disk project record: a one-object JSON text with the two
//! identity fields, written and read byte by byte.
//!
//! The printer escapes quotes, backslashes and the common control bytes;
//! the parser accepts what the printer emits and reconstructs the fields
//! exactly (`lemma_record_round_trip`).

use vstd::prelude::*;

use crate::project::Project;

verus! {

use vstd::string::StrSliceExecFns;

/// The UTF-8 bytes of a string.
pub open spec fn str_bytes(s: String) -> Seq<u8> {
    vstd::utf8::encode_utf8(s@)
}

/// Bytes that the printer escapes.
pub open spec fn needs_escape(b: u8) -> bool {
    b == 0x22 || b == 0x5C || b == 0x0A || b == 0x0D || b == 0x09
}

/// The letter written after the backslash for an escaped byte.
pub open spec fn code_of(b: u8) -> u8 {
    if b == 0x22 {
        0x22
    } else if b == 0x5C {
        0x5C
    } else if b == 0x0A {
        0x6E
    } else if b == 0x0D {
        0x72
    } else {
        0x74
    }
}

/// The letters accepted after a backslash.
pub open spec fn is_code(c: u8) -> bool {
    c == 0x22 || c == 0x5C || c == 0x6E || c == 0x72 || c == 0x74
}

/// The byte a code letter stands for.
pub open spec fn byte_of_code(c: u8) -> u8 {
    if c == 0x22 {
        0x22
    } else if c == 0x5C {
        0x5C
    } else if c == 0x6E {
        0x0A
    } else if c == 0x72 {
        0x0D
    } else {
        0x09
    }
}

/// The escaped form of one byte.
pub open spec fn esc_byte(b: u8) -> Seq<u8> {
    if needs_escape(b) {
        seq![0x5Cu8, code_of(b)]
    } else {
        seq![b]
    }
}

/// The escaped form of a byte string.
pub open spec fn esc(s: Seq<u8>) -> Seq<u8>
    decreases s.len(),
{
    if s.len() == 0 {
        Seq::empty()
    } else {
        esc_byte(s.first()) + esc(s.drop_first())
    }
}

/// Escaping distributes over concatenation.
pub proof fn lemma_esc_concat(a: Seq<u8>, b: Seq<u8>)
    ensures
        esc(a + b) == esc(a) + esc(b),
    decreases a.len(),
{
    if a.len() == 0 {
        assert(a + b =~= b);
        assert(esc(a) + esc(b) =~= esc(b));
    } else {
        assert((a + b).first() == a.first());
        assert((a + b).drop_first() =~= a.drop_first() + b);
        lemma_esc_concat(a.drop_first(), b);
        assert(esc_byte(a.first()) + (esc(a.drop_first()) + esc(b)) =~= (esc_byte(a.first())
            + esc(a.drop_first())) + esc(b));
    }
}

/// Reads an escaped string up to and including its closing quote:
/// the decoded content and the remainder after the quote.
pub open spec fn unesc(s: Seq<u8>) -> Option<(Seq<u8>, Seq<u8>)>
    decreases s.len(),
{
    if s.len() == 0 {
        None
    } else if s.first() == 0x22 {
        Some((Seq::empty(), s.drop_first()))
    } else if s.first() == 0x5C {
        if s.len() >= 2 && is_code(s[1]) {
            match unesc(s.skip(2)) {
                Some(p) => Some((seq![byte_of_code(s[1])] + p.0, p.1)),
                None => None,
            }
        } else {
            None
        }
    } else {
        match unesc(s.drop_first()) {
            Some(p) => Some((seq![s.first()] + p.0, p.1)),
            None => None,
        }
    }
}

/// Reading back an escaped string yields the original content and leaves
/// exactly what follows the closing quote.
pub proof fn lemma_unesc_esc(content: Seq<u8>, rest: Seq<u8>)
    ensures
        unesc(esc(content) + seq![0x22u8] + rest) == Some((content, rest)),
    decreases content.len(),
{
    let s = esc(content) + seq![0x22u8] + rest;
    if content.len() == 0 {
        assert(s =~= seq![0x22u8] + rest);
        assert(s.first() == 0x22);
        assert(s.drop_first() =~= rest);
        assert(content =~= Seq::<u8>::empty());
    } else {
        let b = content.first();
        let tail = content.drop_first();
        lemma_unesc_esc(tail, rest);
        let inner = esc(tail) + seq![0x22u8] + rest;
        if needs_escape(b) {
            assert(s =~= seq![0x5Cu8, code_of(b)] + inner);
            assert(s.first() == 0x5C);
            assert(s[1] == code_of(b));
            assert(is_code(code_of(b)));
            assert(byte_of_code(code_of(b)) == b);
            assert(s.skip(2) =~= inner);
            assert(seq![b] + tail =~= content);
        } else {
            assert(s =~= seq![b] + inner);
            assert(s.first() == b);
            assert(b != 0x22 && b != 0x5C);
            assert(s.drop_first() =~= inner);
            assert(seq![b] + tail =~= content);
        }
    }
}

/// The bytes before the id field: `{"id":"`.
pub open spec fn open_tag() -> Seq<u8> {
    seq![0x7Bu8, 0x22u8, 0x69u8, 0x64u8, 0x22u8, 0x3Au8, 0x22u8]
}

/// The bytes between the id and name fields, after the id's closing
/// quote: `,"name":"`.
pub open spec fn mid_tag() -> Seq<u8> {
    seq![0x2Cu8, 0x22u8, 0x6Eu8, 0x61u8, 0x6Du8, 0x65u8, 0x22u8, 0x3Au8, 0x22u8]
}

/// The byte after the name's closing quote: `}`.
pub open spec fn end_tag() -> Seq<u8> {
    seq![0x7Du8]
}

/// The full record for the given raw field bytes.
pub open spec fn record_bytes(id: Seq<u8>, name: Seq<u8>) -> Seq<u8> {
    open_tag() + esc(id) + seq![0x22u8] + mid_tag() + esc(name) + seq![0x22u8] + end_tag()
}

/// The record the library writes for a project.
pub open spec fn project_record(p: Project) -> Seq<u8> {
    record_bytes(str_bytes(p.id), str_bytes(p.name))
}

/// Reads a record back into its raw field bytes.
pub open spec fn decode_record(s: Seq<u8>) -> Option<(Seq<u8>, Seq<u8>)> {
    if s.len() >= 7 && s.take(7) == open_tag() {
        match unesc(s.skip(7)) {
            Some(p1) => if p1.1.len() >= 9 && p1.1.take(9) == mid_tag() {
                match unesc(p1.1.skip(9)) {
                    Some(p2) => if p2.1 == end_tag() {
                        Some((p1.0, p2.0))
                    } else {
                        None
                    },
                    None => None,
                }
            } else {
                None
            },
            None => None,
        }
    } else {
        None
    }
}

/// Reading a printed record yields the fields it was printed from.
pub proof fn lemma_decode_record_bytes(id: Seq<u8>, name: Seq<u8>)
    ensures
        decode_record(record_bytes(id, name)) == Some((id, name)),
{
    let s = record_bytes(id, name);
    let rest1 = mid_tag() + esc(name) + seq![0x22u8] + end_tag();
    assert(s.len() >= 7);
    assert(s.take(7) =~= open_tag());
    assert(s.skip(7) =~= esc(id) + seq![0x22u8] + rest1);
    lemma_unesc_esc(id, rest1);
    assert(rest1.take(9) =~= mid_tag());
    assert(rest1.skip(9) =~= esc(name) + seq![0x22u8] + end_tag());
    lemma_unesc_esc(name, end_tag());
}

/// The record's fields as text, when the record reads back and both
/// fields are valid UTF-8.
pub open spec fn record_text(s: Seq<u8>) -> Option<(Seq<char>, Seq<char>)> {
    match decode_record(s) {
        Some(p) => if vstd::utf8::valid_utf8(p.0) && vstd::utf8::valid_utf8(p.1) {
            Some((vstd::utf8::decode_utf8(p.0), vstd::utf8::decode_utf8(p.1)))
        } else {
            None
        },
        None => None,
    }
}

/// A printed record reads back to the project's own id and name.
pub proof fn lemma_record_round_trip(p: Project)
    ensures
        record_text(project_record(p)) == Some((p.id@, p.name@)),
{
    broadcast use vstd::utf8::encode_utf8_valid_utf8;
    broadcast use vstd::utf8::encode_utf8_decode_utf8;

    lemma_decode_record_bytes(str_bytes(p.id), str_bytes(p.name));
}

/// Appends the escaped form of `s` to `out`.
pub(crate) fn escape_into(out: &mut Vec<u8>, s: &Vec<u8>)
    ensures
        final (out)@ == old(out)@ + esc(s@),
{
    let ghost base = out@;
    let n = s.len();
    let mut i: usize = 0;
    while i < n
        invariant
            n == s@.len(),
            i <= n,
            out@ == base + esc(s@.take(i as int)),
        decreases n - i,
    {
        let b = s[i];
        proof {
            let a = s@.take(i as int);
            lemma_esc_concat(a, seq![s@[i as int]]);
            assert(s@.take(i + 1) =~= a + seq![s@[i as int]]);
            let single = seq![s@[i as int]];
            assert(single.drop_first() =~= Seq::<u8>::empty());
            assert(esc(single) == esc_byte(s@[i as int]) + esc(single.drop_first()));
            assert(esc(single) =~= esc_byte(s@[i as int]));
        }
        if b == 0x22 || b == 0x5C || b == 0x0A || b == 0x0D || b == 0x09 {
            out.push(0x5C);
            let c: u8 = if b == 0x22 {
                0x22
            } else if b == 0x5C {
                0x5C
            } else if b == 0x0A {
                0x6E
            } else if b == 0x0D {
                0x72
            } else {
                0x74
            };
            out.push(c);
            proof {
                assert(out@ =~= base + esc(s@.take(i + 1)));
            }
        } else {
            out.push(b);
            proof {
                assert(out@ =~= base + esc(s@.take(i + 1)));
            }
        }
        i += 1;
    }
    proof {
        assert(s@.take(n as int) =~= s@);
    }
}

/// Prints the record for a project.
pub fn encode_project(p: &Project) -> (r: Vec<u8>)
    ensures
        r@ == project_record(*p),
{
    let mut out: Vec<u8> = Vec::new();
    out.push(0x7B);
    out.push(0x22);
    out.push(0x69);
    out.push(0x64);
    out.push(0x22);
    out.push(0x3A);
    out.push(0x22);
    proof {
        assert(out@ =~= open_tag());
    }
    let idb = p.id.as_str().as_bytes_vec();
    escape_into(&mut out, &idb);
    out.push(0x22);
    out.push(0x2C);
    out.push(0x22);
    out.push(0x6E);
    out.push(0x61);
    out.push(0x6D);
    out.push(0x65);
    out.push(0x22);
    out.push(0x3A);
    out.push(0x22);
    let nameb = p.name.as_str().as_bytes_vec();
    escape_into(&mut out, &nameb);
    out.push(0x22);
    out.push(0x7D);
    proof {
        assert(out@ =~= project_record(*p));
    }
    out
}

/// Whether `s` holds exactly `pat` starting at `from`.
pub(crate) fn bytes_match(s: &Vec<u8>, from: usize, pat: &Vec<u8>) -> (r: bool)
    requires
        from <= s@.len(),
    ensures
        r == (from + pat@.len() <= s@.len() && s@.subrange(
            from as int,
            from + pat@.len(),
        ) == pat@),
{
    let n = s.len();
    if pat.len() > n - from {
        return false;
    }
    let m = pat.len();
    let mut k: usize = 0;
    while k < m
        invariant
            n == s@.len(),
            m == pat@.len(),
            from + m <= n,
            k <= m,
            forall|t: int| 0 <= t < k ==> s@[from + t] == pat@[t],
        decreases m - k,
    {
        if s[from + k] != pat[k] {
            proof {
                assert(s@.subrange(from as int, from + pat@.len())[k as int] != pat@[k as int]);
            }
            return false;
        }
        k += 1;
    }
    proof {
        assert(s@.subrange(from as int, from + pat@.len()) =~= pat@);
    }
    true
}

/// Reads an escaped string out of `s` starting at `from`: the decoded
/// content and the position after the closing quote.
pub(crate) fn unescape_prefix(s: &Vec<u8>, from: usize) -> (r: Option<(Vec<u8>, usize)>)
    requires
        from <= s@.len(),
    ensures
        match r {
            Some(p) => from <= p.1 <= s@.len() && unesc(s@.skip(from as int)) == Some(
                (p.0@, s@.skip(p.1 as int)),
            ),
            None => unesc(s@.skip(from as int)) is None,
        },
{
    let n = s.len();
    let mut i: usize = from;
    let mut out: Vec<u8> = Vec::new();
    while i < n
        invariant
            n == s@.len(),
            from <= i <= n,
            match unesc(s@.skip(i as int)) {
                Some(p) => unesc(s@.skip(from as int)) == Some((out@ + p.0, p.1)),
                None => unesc(s@.skip(from as int)) is None,
            },
        decreases n - i,
    {
        let b = s[i];
        proof {
            assert(s@.skip(i as int).first() == s@[i as int]);
            assert(s@.skip(i as int).drop_first() =~= s@.skip(i + 1));
        }
        if b == 0x22 {
            proof {
                assert(unesc(s@.skip(i as int)) == Some(
                    (Seq::<u8>::empty(), s@.skip(i + 1)),
                ));
                assert(out@ + Seq::<u8>::empty() =~= out@);
            }
            return Some((out, i + 1));
        } else if b == 0x5C {
            if i + 1 >= n {
                proof {
                    assert(s@.skip(i as int).len() == 1);
                    assert(unesc(s@.skip(i as int)) is None);
                }
                return None;
            }
            let c = s[i + 1];
            proof {
                assert(s@.skip(i as int)[1] == s@[i + 1]);
                assert(s@.skip(i as int).len() >= 2);
                assert(s@.skip(i as int).skip(2) =~= s@.skip(i + 2));
            }
            if c == 0x22 || c == 0x5C || c == 0x6E || c == 0x72 || c == 0x74 {
                let d: u8 = if c == 0x22 {
                    0x22
                } else if c == 0x5C {
                    0x5C
                } else if c == 0x6E {
                    0x0A
                } else if c == 0x72 {
                    0x0D
                } else {
                    0x09
                };
                let ghost out0 = out@;
                out.push(d);
                proof {
                    assert(d == byte_of_code(c));
                    if unesc(s@.skip(i + 2)) is Some {
                        let p = unesc(s@.skip(i + 2)).unwrap();
                        assert(unesc(s@.skip(i as int)) == Some((seq![d] + p.0, p.1)));
                        assert(out0 + (seq![d] + p.0) =~= out@ + p.0);
                    }
                }
                i += 2;
            } else {
                proof {
                    assert(!is_code(c));
                    assert(unesc(s@.skip(i as int)) is None);
                }
                return None;
            }
        } else {
            let ghost out0 = out@;
            out.push(b);
            proof {
                if unesc(s@.skip(i + 1)) is Some {
                    let p = unesc(s@.skip(i + 1)).unwrap();
                    assert(unesc(s@.skip(i as int)) == Some((seq![b] + p.0, p.1)));
                    assert(out0 + (seq![b] + p.0) =~= out@ + p.0);
                }
            }
            i += 1;
        }
    }
    proof {
        assert(s@.skip(i as int).len() == 0);
        assert(unesc(s@.skip(i as int)) is None);
    }
    None
}

/// Reads a record into its raw field byte vectors.
fn decode_project_bytes(s: &Vec<u8>) -> (r: Option<(Vec<u8>, Vec<u8>)>)
    ensures
        match r {
            Some(p) => decode_record(s@) == Some((p.0@, p.1@)),
            None => decode_record(s@) is None,
        },
{
    let mut open: Vec<u8> = Vec::new();
    open.push(0x7B);
    open.push(0x22);
    open.push(0x69);
    open.push(0x64);
    open.push(0x22);
    open.push(0x3A);
    open.push(0x22);
    proof {
        assert(open@ =~= open_tag());
    }
    if !bytes_match(s, 0, &open) {
        proof {
            if s@.len() >= 7 {
                assert(s@.subrange(0, 7) =~= s@.take(7));
            }
        }
        return None;
    }
    proof {
        assert(s@.subrange(0, 7) =~= s@.take(7));
    }
    let id_part = unescape_prefix(s, 7);
    match id_part {
        None => None,
        Some((idb, j)) => {
            let mut mid: Vec<u8> = Vec::new();
            mid.push(0x2C);
            mid.push(0x22);
            mid.push(0x6E);
            mid.push(0x61);
            mid.push(0x6D);
            mid.push(0x65);
            mid.push(0x22);
            mid.push(0x3A);
            mid.push(0x22);
            proof {
                assert(mid@ =~= mid_tag());
            }
            let ghost r1 = s@.skip(j as int);
            if !bytes_match(s, j, &mid) {
                proof {
                    if r1.len() >= 9 {
                        assert(s@.subrange(j as int, j + 9) =~= r1.take(9));
                    }
                }
                return None;
            }
            let n = s.len();
            proof {
                assert(mid@.len() == 9);
                assert(j + 9 <= n);
                assert(s@.subrange(j as int, j + 9) =~= r1.take(9));
                assert(r1.skip(9) =~= s@.skip(j + 9));
            }
            let jm = j + 9;
            let name_part = unescape_prefix(s, jm);
            match name_part {
                None => None,
                Some((nameb, j2)) => {
                    let ghost r2 = s@.skip(j2 as int);
                    if j2 == n - 1 && s[j2] == 0x7D {
                        proof {
                            assert(r2 =~= end_tag());
                        }
                        Some((idb, nameb))
                    } else {
                        proof {
                            if r2 == end_tag() {
                                assert(r2.len() == 1);
                                assert(r2[0] == s@[j2 as int]);
                            }
                        }
                        None
                    }
                },
            }
        },
    }
}

/// Relies on `String::from_utf8`: it returns the string made of exactly
/// the given bytes, and fails exactly when they are not valid UTF-8.
#[verifier::external_body]
pub(crate) fn bytes_to_string(b: Vec<u8>) -> (r: Option<String>)
    ensures
        match r {
            Some(s) => vstd::utf8::encode_utf8(s@) == b@ && vstd::utf8::valid_utf8(b@),
            None => !vstd::utf8::valid_utf8(b@),
        },
{
    String::from_utf8(b).ok()
}

/// Reads a record back into a project. The result is exactly what
/// `record_text` says of the bytes.
pub fn parse_project(s: &Vec<u8>) -> (r: Option<Project>)
    ensures
        match r {
            Some(p) => record_text(s@) == Some((p.id@, p.name@)),
            None => record_text(s@) is None,
        },
{
    broadcast use vstd::utf8::encode_utf8_decode_utf8;

    match decode_project_bytes(s) {
        None => None,
        Some((idb, nameb)) => {
            match bytes_to_string(idb) {
                None => None,
                Some(id) => {
                    match bytes_to_string(nameb) {
                        None => None,
                        Some(name) => Some(Project { id, name }),
                    }
                },
            }
        },
    }
}

} // verus!
