//! Reading the remote service's answers: the project listing is an HTML
//! page with the listing embedded as a JSON blob in a marker element's
//! attribute, and the project detail is a JSON document. The extraction
//! rule — find the marker attribute, take the following `content`
//! attribute's value, undo HTML escaping — is spelled out byte by byte;
//! the JSON itself is read through `serde_json`.

use vstd::prelude::*;

use crate::errors::SyncError;
use crate::project::Project;

verus! {

use vstd::string::StringSliceAdditionalSpecFns;

/// The first position at or after `from` where `pat` occurs in `h`.
pub open spec fn first_match(h: Seq<u8>, pat: Seq<u8>, from: int) -> Option<int>
    decreases h.len() - from,
{
    if from < 0 || from + pat.len() > h.len() {
        None
    } else if pat.len() == 0 {
        Some(from)
    } else if h.subrange(from, from + pat.len()) == pat {
        Some(from)
    } else {
        first_match(h, pat, from + 1)
    }
}

/// Finds the first occurrence of `pat` in `h` at or after `from`.
pub fn find_bytes(h: &[u8], pat: &[u8], from: usize) -> (r: Option<usize>)
    ensures
        match r {
            Some(i) => from <= i && first_match(h@, pat@, from as int) == Some(i as int),
            None => first_match(h@, pat@, from as int) is None,
        },
{
    let hn = h.len();
    let pn = pat.len();
    if pn > hn || from > hn - pn {
        proof {
            lemma_first_match_none(h@, pat@, from as int);
        }
        return None;
    }
    let mut i: usize = from;
    while i <= hn - pn
        invariant
            hn == h@.len(),
            pn == pat@.len(),
            pn <= hn,
            from <= i,
            i <= hn,
            first_match(h@, pat@, from as int) == first_match(h@, pat@, i as int),
        decreases hn - i,
    {
        let mut k: usize = 0;
        let mut hit = true;
        while k < pn
            invariant
                hn == h@.len(),
                pn == pat@.len(),
                i + pn <= hn,
                k <= pn,
                hit == (forall|t: int| 0 <= t < k ==> h@[i + t] == pat@[t]),
            decreases pn - k,
        {
            if h[i + k] != pat[k] {
                hit = false;
                proof {
                    assert(h@[i + k] != pat@[k as int]);
                }
                k = pn;
            } else {
                k += 1;
            }
        }
        if hit {
            proof {
                assert(h@.subrange(i as int, i + pn) =~= pat@);
            }
            return Some(i);
        }
        proof {
            if h@.subrange(i as int, i + pn) == pat@ {
                let t = choose|t: int| 0 <= t < pn && h@[i + t] != pat@[t];
                assert(h@.subrange(i as int, i + pn)[t] == pat@[t]);
            }
        }
        i += 1;
    }
    proof {
        lemma_first_match_none(h@, pat@, i as int);
    }
    None
}

/// Past the last fitting position there is no match.
proof fn lemma_first_match_none(h: Seq<u8>, pat: Seq<u8>, from: int)
    requires
        from + pat.len() > h.len() || from < 0,
    ensures
        first_match(h, pat, from) is None,
{
}

/// The bytes of the attribute that marks the listing element.
pub open spec fn listing_marker() -> Seq<u8> {
    vstd::utf8::encode_utf8("name=\"ol-prefetchedProjectsBlob\""@)
}

/// The bytes that open the content attribute.
pub open spec fn content_open() -> Seq<u8> {
    vstd::utf8::encode_utf8("content=\""@)
}

/// A found occurrence lies within the searched bytes.
pub proof fn lemma_first_match_bounds(h: Seq<u8>, pat: Seq<u8>, from: int, i: int)
    requires
        first_match(h, pat, from) == Some(i),
    ensures
        from <= i,
        i + pat.len() <= h.len(),
    decreases h.len() - from,
{
    if from < 0 || from + pat.len() > h.len() {
    } else if pat.len() == 0 {
    } else if h.subrange(from, from + pat.len()) == pat {
    } else {
        lemma_first_match_bounds(h, pat, from + 1, i);
    }
}

/// The extraction rule over the page's bytes: the marker attribute, then
/// the `content` attribute of the same element — it must stand after the
/// marker and before the element's closing bracket, as the service emits
/// it — whose value runs to the next quote and is read with HTML escapes
/// undone.
pub open spec fn extract_blob(h: Seq<u8>) -> Option<Seq<u8>> {
    match first_match(h, listing_marker(), 0) {
        None => None,
        Some(i) => match first_match(h, seq![0x3Eu8], i + listing_marker().len()) {
            None => None,
            Some(g) => match first_match(h, content_open(), i + listing_marker().len()) {
                None => None,
                Some(j) => if j < g {
                    let start = j + content_open().len();
                    match first_match(h, seq![0x22u8], start) {
                        None => None,
                        Some(k) => Some(decode_entities(h.subrange(start, k))),
                    }
                } else {
                    None
                },
            },
        },
    }
}

/// HTML escape sequences undone, byte by byte: the five named escapes
/// the service uses; everything else passes through.
pub open spec fn decode_entities(s: Seq<u8>) -> Seq<u8>
    decreases s.len(),
{
    if s.len() == 0 {
        Seq::empty()
    } else if s.len() >= 6 && s.subrange(0, 6) == quot_entity() {
        seq![0x22u8] + decode_entities(s.skip(6))
    } else if s.len() >= 5 && s.subrange(0, 5) == amp_entity() {
        seq![0x26u8] + decode_entities(s.skip(5))
    } else if s.len() >= 4 && s.subrange(0, 4) == lt_entity() {
        seq![0x3Cu8] + decode_entities(s.skip(4))
    } else if s.len() >= 4 && s.subrange(0, 4) == gt_entity() {
        seq![0x3Eu8] + decode_entities(s.skip(4))
    } else if s.len() >= 5 && s.subrange(0, 5) == apos_entity() {
        seq![0x27u8] + decode_entities(s.skip(5))
    } else {
        seq![s[0]] + decode_entities(s.skip(1))
    }
}

/// The bytes of `&quot;`.
pub open spec fn quot_entity() -> Seq<u8> {
    seq![0x26u8, 0x71u8, 0x75u8, 0x6Fu8, 0x74u8, 0x3Bu8]
}

/// The bytes of `&amp;`.
pub open spec fn amp_entity() -> Seq<u8> {
    seq![0x26u8, 0x61u8, 0x6Du8, 0x70u8, 0x3Bu8]
}

/// The bytes of `&lt;`.
pub open spec fn lt_entity() -> Seq<u8> {
    seq![0x26u8, 0x6Cu8, 0x74u8, 0x3Bu8]
}

/// The bytes of `&gt;`.
pub open spec fn gt_entity() -> Seq<u8> {
    seq![0x26u8, 0x67u8, 0x74u8, 0x3Bu8]
}

/// The bytes of `&#39;`.
pub open spec fn apos_entity() -> Seq<u8> {
    seq![0x26u8, 0x23u8, 0x33u8, 0x39u8, 0x3Bu8]
}

/// Whether `s` holds exactly `pat` starting at `from` (both slices).
fn slice_match(s: &[u8], from: usize, pat: &[u8]) -> (r: bool)
    requires
        from <= s@.len(),
    ensures
        r == (from + pat@.len() <= s@.len() && s@.subrange(from as int, from + pat@.len())
            == pat@),
{
    let n = s.len();
    if pat.len() > n - from {
        return false;
    }
    let m = pat.len();
    let mut k: usize = 0;
    while k < m
        invariant
            n == s@.len(),
            m == pat@.len(),
            from + m <= n,
            k <= m,
            forall|t: int| 0 <= t < k ==> s@[from + t] == pat@[t],
        decreases m - k,
    {
        if s[from + k] != pat[k] {
            proof {
                assert(s@.subrange(from as int, from + pat@.len())[k as int] != pat@[k as int]);
            }
            return false;
        }
        k += 1;
    }
    proof {
        assert(s@.subrange(from as int, from + pat@.len()) =~= pat@);
    }
    true
}

/// Undoes the HTML escapes in `s` between `from` and `to`.
fn decode_entities_bytes(s: &[u8], from: usize, to: usize) -> (r: Vec<u8>)
    requires
        from <= to <= s@.len(),
    ensures
        r@ == decode_entities(s@.subrange(from as int, to as int)),
{
    let mut out: Vec<u8> = Vec::new();
    let mut i: usize = from;
    let mut quot: Vec<u8> = Vec::new();
    quot.push(0x26);
    quot.push(0x71);
    quot.push(0x75);
    quot.push(0x6F);
    quot.push(0x74);
    quot.push(0x3B);
    let mut amp: Vec<u8> = Vec::new();
    amp.push(0x26);
    amp.push(0x61);
    amp.push(0x6D);
    amp.push(0x70);
    amp.push(0x3B);
    let mut lt: Vec<u8> = Vec::new();
    lt.push(0x26);
    lt.push(0x6C);
    lt.push(0x74);
    lt.push(0x3B);
    let mut gt: Vec<u8> = Vec::new();
    gt.push(0x26);
    gt.push(0x67);
    gt.push(0x74);
    gt.push(0x3B);
    let mut apos: Vec<u8> = Vec::new();
    apos.push(0x26);
    apos.push(0x23);
    apos.push(0x33);
    apos.push(0x39);
    apos.push(0x3B);
    proof {
        assert(quot@ =~= quot_entity());
        assert(amp@ =~= amp_entity());
        assert(lt@ =~= lt_entity());
        assert(gt@ =~= gt_entity());
        assert(apos@ =~= apos_entity());
    }
    while i < to
        invariant
            from <= i <= to <= s@.len(),
            quot@ == quot_entity(),
            amp@ == amp_entity(),
            lt@ == lt_entity(),
            gt@ == gt_entity(),
            apos@ == apos_entity(),
            decode_entities(s@.subrange(from as int, to as int)) == out@ + decode_entities(
                s@.subrange(i as int, to as int),
            ),
        decreases to - i,
    {
        let ghost rest = s@.subrange(i as int, to as int);
        let ghost out0 = out@;
        if to - i >= 6 && slice_match(s, i, quot.as_slice()) {
            proof {
                assert(rest.subrange(0, 6) =~= s@.subrange(i as int, i + 6));
                assert(rest.skip(6) =~= s@.subrange(i + 6, to as int));
            }
            out.push(0x22);
            i += 6;
        } else if to - i >= 5 && slice_match(s, i, amp.as_slice()) {
            proof {
                assert(rest.subrange(0, 5) =~= s@.subrange(i as int, i + 5));
                if rest.len() >= 6 && rest.subrange(0, 6) == quot_entity() {
                    assert(rest.subrange(0, 6)[1] == rest.subrange(0, 5)[1]);
                }
                assert(rest.skip(5) =~= s@.subrange(i + 5, to as int));
            }
            out.push(0x26);
            i += 5;
        } else if to - i >= 4 && slice_match(s, i, lt.as_slice()) {
            proof {
                assert(rest.subrange(0, 4) =~= s@.subrange(i as int, i + 4));
                if rest.len() >= 6 && rest.subrange(0, 6) == quot_entity() {
                    assert(rest.subrange(0, 6)[1] == rest.subrange(0, 4)[1]);
                }
                if rest.len() >= 5 && rest.subrange(0, 5) == amp_entity() {
                    assert(rest.subrange(0, 5)[1] == rest.subrange(0, 4)[1]);
                }
                assert(rest.skip(4) =~= s@.subrange(i + 4, to as int));
            }
            out.push(0x3C);
            i += 4;
        } else if to - i >= 4 && slice_match(s, i, gt.as_slice()) {
            proof {
                assert(rest.subrange(0, 4) =~= s@.subrange(i as int, i + 4));
                if rest.len() >= 6 && rest.subrange(0, 6) == quot_entity() {
                    assert(rest.subrange(0, 6)[1] == rest.subrange(0, 4)[1]);
                }
                if rest.len() >= 5 && rest.subrange(0, 5) == amp_entity() {
                    assert(rest.subrange(0, 5)[1] == rest.subrange(0, 4)[1]);
                }
                if rest.len() >= 4 && rest.subrange(0, 4) == lt_entity() {
                    assert(rest.subrange(0, 4)[1] == rest.subrange(0, 4)[1]);
                }
                assert(rest.skip(4) =~= s@.subrange(i + 4, to as int));
            }
            out.push(0x3E);
            i += 4;
        } else if to - i >= 5 && slice_match(s, i, apos.as_slice()) {
            proof {
                assert(rest.subrange(0, 5) =~= s@.subrange(i as int, i + 5));
                if rest.len() >= 6 && rest.subrange(0, 6) == quot_entity() {
                    assert(rest.subrange(0, 6)[1] == rest.subrange(0, 5)[1]);
                }
                if rest.len() >= 5 && rest.subrange(0, 5) == amp_entity() {
                    assert(rest.subrange(0, 5)[1] == rest.subrange(0, 5)[1]);
                }
                if rest.len() >= 4 && rest.subrange(0, 4) == lt_entity() {
                    assert(rest.subrange(0, 4)[1] == rest.subrange(0, 5)[1]);
                }
                if rest.len() >= 4 && rest.subrange(0, 4) == gt_entity() {
                    assert(rest.subrange(0, 4)[1] == rest.subrange(0, 5)[1]);
                }
                assert(rest.skip(5) =~= s@.subrange(i + 5, to as int));
            }
            out.push(0x27);
            i += 5;
        } else {
            proof {
                assert(rest[0] == s@[i as int]);
                assert(rest.skip(1) =~= s@.subrange(i + 1, to as int));
                // None of the entities matches at this position: each
                // pattern, were it present, would have been taken.
                if rest.len() >= 6 && rest.subrange(0, 6) == quot_entity() {
                    assert(s@.subrange(i as int, i + 6) =~= rest.subrange(0, 6));
                }
                if rest.len() >= 5 && rest.subrange(0, 5) == amp_entity() {
                    assert(s@.subrange(i as int, i + 5) =~= rest.subrange(0, 5));
                }
                if rest.len() >= 4 && rest.subrange(0, 4) == lt_entity() {
                    assert(s@.subrange(i as int, i + 4) =~= rest.subrange(0, 4));
                }
                if rest.len() >= 4 && rest.subrange(0, 4) == gt_entity() {
                    assert(s@.subrange(i as int, i + 4) =~= rest.subrange(0, 4));
                }
                if rest.len() >= 5 && rest.subrange(0, 5) == apos_entity() {
                    assert(s@.subrange(i as int, i + 5) =~= rest.subrange(0, 5));
                }
            }
            let b = s[i];
            out.push(b);
            i += 1;
        }
        proof {
            assert(out@ + decode_entities(s@.subrange(i as int, to as int)) =~= out0
                + decode_entities(rest));
        }
    }
    proof {
        assert(s@.subrange(i as int, to as int).len() == 0);
        assert(decode_entities(s@.subrange(i as int, to as int)) =~= Seq::<u8>::empty());
        assert(out@ + decode_entities(s@.subrange(i as int, to as int)) =~= out@);
    }
    out
}


/// Pulls the embedded project-listing blob out of the page: the marker
/// attribute is found, the following `content` attribute's value is cut
/// out up to its closing quote, and the HTML escaping is undone. The
/// result is exactly what `extract_blob` names.
pub fn extract_projects_blob(html: &str) -> (r: Option<String>)
    ensures
        match extract_blob(html.spec_bytes()) {
            Some(b) => {
                if vstd::utf8::valid_utf8(b) {
                    r matches Some(s) && vstd::utf8::encode_utf8(s@) == b
                } else {
                    r is None
                }
            },
            None => r is None,
        },
{
    let bytes = html.as_bytes();
    let hn = bytes.len();
    let marker = "name=\"ol-prefetchedProjectsBlob\"".as_bytes();
    let copen = "content=\"".as_bytes();
    let i = match find_bytes(bytes, marker, 0) {
        Some(i) => i,
        None => {
            return None;
        },
    };
    proof {
        lemma_first_match_bounds(bytes@, marker@, 0, i as int);
        assert(i + marker@.len() <= hn);
    }
    let mut bracket: Vec<u8> = Vec::new();
    bracket.push(0x3E);
    let g = match find_bytes(bytes, bracket.as_slice(), i + marker.len()) {
        Some(g) => g,
        None => {
            return None;
        },
    };
    proof {
        assert(bracket@ =~= seq![0x3Eu8]);
    }
    let j = match find_bytes(bytes, copen, i + marker.len()) {
        Some(j) => j,
        None => {
            return None;
        },
    };
    if j >= g {
        return None;
    }
    proof {
        lemma_first_match_bounds(bytes@, copen@, i as int + marker@.len() as int, j as int);
        assert(j + copen@.len() <= hn);
    }
    let start = j + copen.len();
    let mut quote: Vec<u8> = Vec::new();
    quote.push(0x22);
    let k = match find_bytes(bytes, quote.as_slice(), start) {
        Some(k) => k,
        None => {
            return None;
        },
    };
    proof {
        lemma_first_match_bounds(bytes@, quote@, start as int, k as int);
        assert(quote@ =~= seq![0x22u8]);
    }
    let blob = decode_entities_bytes(bytes, start, k);
    crate::codec::bytes_to_string(blob)
}

/// What a listing document carries: the `projects` array's `(id, name)`
/// string pairs, in listing order — a function of the text alone.
pub uninterp spec fn listing_of(blob: Seq<char>) -> Option<Seq<(Seq<char>, Seq<char>)>>;

/// Relies on `serde_json` — `from_str`, `Value::get`, `Value::as_array`,
/// `Value::as_str` — to read the listing a JSON document carries: the
/// `projects` member as an array of objects with string members `id` and
/// `name`. The result depends on the text alone and is named
/// `listing_of`.
#[verifier::external_body]
fn listing_from_json(blob: &str) -> (r: Option<Vec<Project>>)
    ensures
        match r {
            Some(v) => listing_of(blob@) matches Some(l) && l.len() == v@.len() && (forall|i: int|
                0 <= i < v@.len() ==> l[i].0 == v@[i].id@ && l[i].1 == v@[i].name@),
            None => listing_of(blob@) is None,
        },
{
    let value: serde_json::Value = serde_json::from_str(blob).ok()?;
    let items = value.get("projects")?.as_array()?;
    items
        .iter()
        .map(|item| {
            Some(Project {
                id: item.get("id")?.as_str()?.to_owned(),
                name: item.get("name")?.as_str()?.to_owned(),
            })
        })
        .collect()
}

/// What a detail document carries: the string member `_id` of the first
/// element of `rootFolder` — a function of the text alone.
pub uninterp spec fn detail_root_of(doc: Seq<char>) -> Option<Seq<char>>;

/// Relies on `serde_json` — `from_str`, `Value::get`, `Value::as_array`,
/// `Value::as_str` — to read the root folder id a detail document
/// carries: `rootFolder[0]._id` as a string. The result depends on the
/// text alone and is named `detail_root_of`.
#[verifier::external_body]
fn detail_from_json(doc: &str) -> (r: Option<String>)
    ensures
        match r {
            Some(s) => detail_root_of(doc@) == Some(s@),
            None => detail_root_of(doc@) is None,
        },
{
    let value: serde_json::Value = serde_json::from_str(doc).ok()?;
    let root = value.get("rootFolder")?.as_array()?.first()?;
    Some(root.get("_id")?.as_str()?.to_owned())
}

/// Reads the project listing out of the listing page: the embedded blob,
/// read as the JSON listing it carries. Success is owed exactly when the
/// page holds the blob, the blob is valid UTF-8, and the blob carries a
/// listing; the returned identities are exactly that listing, and every
/// decision about them is made by the lookup functions.
pub fn parse_project_list(html: &str) -> (r: Result<Vec<Project>, SyncError>)
    ensures
        match r {
            Ok(v) => match extract_blob(html.spec_bytes()) {
                Some(b) => vstd::utf8::valid_utf8(b) && match listing_of(
                    vstd::utf8::decode_utf8(b),
                ) {
                    Some(l) => l.len() == v@.len() && (forall|i: int|
                        0 <= i < v@.len() ==> l[i].0 == v@[i].id@ && l[i].1 == v@[i].name@),
                    None => false,
                },
                None => false,
            },
            Err(e) => e is RemoteProtocolError && match extract_blob(html.spec_bytes()) {
                Some(b) => !vstd::utf8::valid_utf8(b) || listing_of(
                    vstd::utf8::decode_utf8(b),
                ) is None,
                None => true,
            },
        },
{
    broadcast use vstd::utf8::encode_utf8_decode_utf8;

    let blob = match extract_projects_blob(html) {
        Some(blob) => blob,
        None => {
            return Err(SyncError::RemoteProtocolError);
        },
    };
    match listing_from_json(blob.as_str()) {
        Some(projects) => Ok(projects),
        None => Err(SyncError::RemoteProtocolError),
    }
}

/// Reads the root folder id out of a project-detail document: the first
/// element of `rootFolder`, member `_id`. Uploads address this folder.
/// Success is owed exactly when the document carries the id, and the
/// result is exactly it.
pub fn parse_project_detail(json: &str) -> (r: Result<String, SyncError>)
    ensures
        match r {
            Ok(s) => detail_root_of(json@) == Some(s@),
            Err(e) => e is RemoteProtocolError && detail_root_of(json@) is None,
        },
{
    match detail_from_json(json) {
        Some(id) => Ok(id),
        None => Err(SyncError::RemoteProtocolError),
    }
}

} // verus!
