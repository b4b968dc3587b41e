//! Verified text building: decimal rendering, backup directory names,
//! request URLs and header values, and path rendering.

use vstd::prelude::*;

verus! {

use vstd::string::StrSliceExecFns;
use vstd::string::StringExecFns;

/// The digit character for one decimal digit.
pub open spec fn digit_char(d: nat) -> char {
    if d == 0 {
        '0'
    } else if d == 1 {
        '1'
    } else if d == 2 {
        '2'
    } else if d == 3 {
        '3'
    } else if d == 4 {
        '4'
    } else if d == 5 {
        '5'
    } else if d == 6 {
        '6'
    } else if d == 7 {
        '7'
    } else if d == 8 {
        '8'
    } else {
        '9'
    }
}

/// The decimal rendering of a number, most significant digit first.
pub open spec fn dec_str(n: nat) -> Seq<char>
    decreases n,
{
    if n < 10 {
        seq![digit_char(n)]
    } else {
        dec_str(n / 10).push(digit_char(n % 10))
    }
}

/// One decimal digit as a string.
fn digit_string(d: u64) -> (r: String)
    requires
        d < 10,
    ensures
        r@ == seq![digit_char(d as nat)],
{
    let s: &str = if d == 0 {
        "0"
    } else if d == 1 {
        "1"
    } else if d == 2 {
        "2"
    } else if d == 3 {
        "3"
    } else if d == 4 {
        "4"
    } else if d == 5 {
        "5"
    } else if d == 6 {
        "6"
    } else if d == 7 {
        "7"
    } else if d == 8 {
        "8"
    } else {
        "9"
    };
    proof {
        reveal_strlit("0");
        reveal_strlit("1");
        reveal_strlit("2");
        reveal_strlit("3");
        reveal_strlit("4");
        reveal_strlit("5");
        reveal_strlit("6");
        reveal_strlit("7");
        reveal_strlit("8");
        reveal_strlit("9");
        assert(s@ =~= seq![digit_char(d as nat)]);
    }
    s.to_owned()
}

/// Renders a number in decimal.
pub fn u64_to_string(n: u64) -> (r: String)
    ensures
        r@ == dec_str(n as nat),
    decreases n,
{
    if n < 10 {
        digit_string(n)
    } else {
        let prefix = u64_to_string(n / 10);
        let last = digit_string(n % 10);
        let r = prefix.concat(last.as_str());
        proof {
            assert(r@ =~= dec_str((n / 10) as nat).push(digit_char((n % 10) as nat)));
        }
        r
    }
}

/// The backup directory name for a project and a creation instant in
/// epoch milliseconds.
pub open spec fn backup_name(project: Seq<char>, millis: nat) -> Seq<char> {
    project + "-"@ + dec_str(millis) + ".local.bak"@
}

/// Whether a name looks like a backup directory name: it ends in the
/// backup suffix.
pub open spec fn is_backup_name(s: Seq<char>) -> bool {
    s.len() >= 10 && s.skip(s.len() - 10) == ".local.bak"@
}

/// Every backup name matches the backup name pattern.
pub proof fn lemma_backup_name_pattern(project: Seq<char>, millis: nat)
    ensures
        is_backup_name(backup_name(project, millis)),
{
    let s = backup_name(project, millis);
    reveal_strlit("-");
    reveal_strlit(".local.bak");
    assert(".local.bak"@.len() == 10);
    assert(s.skip(s.len() - 10) =~= ".local.bak"@);
}

/// Builds the backup directory name.
pub fn backup_file_name(project: &String, millis: u64) -> (r: String)
    ensures
        r@ == backup_name(project@, millis as nat),
{
    let r = project.clone().concat("-").concat(u64_to_string(millis).as_str()).concat(
        ".local.bak",
    );
    proof {
        assert(r@ =~= backup_name(project@, millis as nat));
    }
    r
}

/// The text of a component path: each component behind a slash.
pub open spec fn path_text(p: Seq<Seq<char>>) -> Seq<char>
    decreases p.len(),
{
    if p.len() == 0 {
        Seq::empty()
    } else {
        path_text(p.drop_last()) + seq!['/'] + p.last()
    }
}

/// Renders a component path, each component behind a slash.
pub fn path_to_str(path: &Vec<String>) -> (r: String)
    ensures
        r@ == path_text(path.deep_view()),
{
    let mut r = String::new();
    let n = path.len();
    let mut i: usize = 0;
    while i < n
        invariant
            n == path@.len(),
            i <= n,
            r@ == path_text(path.deep_view().take(i as int)),
        decreases n - i,
    {
        r = r.concat("/").concat(path[i].as_str());
        proof {
            reveal_strlit("/");
            let pv = path.deep_view();
            assert(pv.take(i + 1).drop_last() =~= pv.take(i as int));
            assert(pv.take(i + 1).last() == pv[i as int]);
            assert("/"@ =~= seq!['/']);
            assert(r@ =~= path_text(pv.take(i + 1)));
        }
        i += 1;
    }
    proof {
        assert(path.deep_view().take(n as int) =~= path.deep_view());
    }
    r
}

/// The cookie header value carrying the session credential.
pub fn cookie_header(name: &String, value: &String) -> (r: String)
    ensures
        r@ == name@ + "="@ + value@,
{
    name.clone().concat("=").concat(value.as_str())
}

/// The page whose listing carries all projects.
pub fn projects_url() -> (r: String)
    ensures
        r@ == "https://www.overleaf.com/project"@,
{
    String::from_str("https://www.overleaf.com/project")
}

/// The login page for the interactive browser flow.
pub fn login_url() -> (r: String)
    ensures
        r@ == "https://www.overleaf.com/login"@,
{
    String::from_str("https://www.overleaf.com/login")
}

/// The archive download address of a project.
pub fn download_project_url(project_id: &String) -> (r: String)
    ensures
        r@ == "https://www.overleaf.com/project/"@ + project_id@ + "/download/zip"@,
{
    String::from_str("https://www.overleaf.com/project/").concat(project_id.as_str()).concat(
        "/download/zip",
    )
}

/// The upload address of a project.
pub fn upload_file_url(project_id: &String) -> (r: String)
    ensures
        r@ == "https://www.overleaf.com/project/"@ + project_id@ + "/upload"@,
{
    String::from_str("https://www.overleaf.com/project/").concat(project_id.as_str()).concat(
        "/upload",
    )
}


/// Each line break continued with the message gutter: the text of a
/// multi-line message, every following line set off under the first.
pub open spec fn prefixed(s: Seq<char>) -> Seq<char>
    decreases s.len(),
{
    if s.len() == 0 {
        Seq::empty()
    } else if s.first() == '\n' {
        seq!['\n', ' ', '|', ' ', ' '] + prefixed(s.drop_first())
    } else {
        seq![s.first()] + prefixed(s.drop_first())
    }
}

/// The gutter insertion distributes over concatenation.
pub proof fn lemma_prefixed_concat(a: Seq<char>, b: Seq<char>)
    ensures
        prefixed(a + b) == prefixed(a) + prefixed(b),
    decreases a.len(),
{
    if a.len() == 0 {
        assert(a + b =~= b);
        assert(prefixed(a) + prefixed(b) =~= prefixed(b));
    } else {
        assert((a + b).first() == a.first());
        assert((a + b).drop_first() =~= a.drop_first() + b);
        lemma_prefixed_concat(a.drop_first(), b);
        if a.first() == '\n' {
            assert(seq!['\n', ' ', '|', ' ', ' '] + (prefixed(a.drop_first()) + prefixed(b)) =~= (
            seq!['\n', ' ', '|', ' ', ' '] + prefixed(a.drop_first())) + prefixed(b));
        } else {
            assert(seq![a.first()] + (prefixed(a.drop_first()) + prefixed(b)) =~= (seq![a.first()]
                + prefixed(a.drop_first())) + prefixed(b));
        }
    }
}

/// A stretch without line breaks passes through unchanged.
pub proof fn lemma_prefixed_clean(a: Seq<char>)
    requires
        forall|i: int| 0 <= i < a.len() ==> a[i] != '\n',
    ensures
        prefixed(a) == a,
    decreases a.len(),
{
    if a.len() == 0 {
        assert(prefixed(a) =~= a);
    } else {
        lemma_prefixed_clean(a.drop_first());
        assert(seq![a.first()] + a.drop_first() =~= a);
    }
}

/// Sets every line after the first into the message gutter.
pub fn with_prefix(msg: &String) -> (r: String)
    ensures
        r@ == prefixed(msg@),
{
    let s = msg.as_str();
    let n = s.unicode_len();
    let mut out = String::new();
    let mut seg: usize = 0;
    let mut i: usize = 0;
    while i < n
        invariant
            n == s@.len(),
            s@ == msg@,
            seg <= i <= n,
            out@ == prefixed(s@.take(seg as int)),
            forall|t: int| seg <= t < i ==> s@[t] != '\n',
        decreases n - i,
    {
        if s.get_char(i) == '\n' {
            let piece = s.substring_char(seg, i);
            out = out.concat(piece);
            out = out.concat("\n |  ");
            proof {
                reveal_strlit("\n |  ");
                assert("\n |  "@ =~= seq!['\n', ' ', '|', ' ', ' ']);
                let a = s@.take(seg as int);
                let b = s@.subrange(seg as int, i as int);
                let c = seq!['\n'];
                lemma_prefixed_concat(a, b);
                lemma_prefixed_concat(a + b, c);
                lemma_prefixed_clean(b);
                assert(s@.take(i + 1) =~= (a + b) + c);
                assert(prefixed(c) =~= seq!['\n', ' ', '|', ' ', ' ']) by {
                    assert(c.drop_first() =~= Seq::<char>::empty());
                    assert(prefixed(c.drop_first()) =~= Seq::<char>::empty());
                    assert(seq!['\n', ' ', '|', ' ', ' '] + prefixed(c.drop_first()) =~= seq![
                        '\n',
                        ' ',
                        '|',
                        ' ',
                        ' ',
                    ]);
                }
                assert(out@ =~= prefixed(s@.take(i + 1)));
            }
            seg = i + 1;
        }
        i += 1;
    }
    let piece = s.substring_char(seg, n);
    out = out.concat(piece);
    proof {
        let a = s@.take(seg as int);
        let b = s@.subrange(seg as int, n as int);
        lemma_prefixed_concat(a, b);
        lemma_prefixed_clean(b);
        assert(s@.take(n as int) =~= a + b);
        assert(s@.take(n as int) =~= s@);
        assert(out@ =~= prefixed(msg@));
    }
    out
}

/// The success line: a check mark, then the message with its gutter.
pub fn success_message(msg: String) -> (r: String)
    ensures
        r@ == "[\u{2714}] "@ + prefixed(msg@),
{
    String::from_str("[\u{2714}] ").concat(with_prefix(&msg).as_str())
}

/// The failure line: an alarm mark, then the message with its gutter.
pub fn error_message(msg: String) -> (r: String)
    ensures
        r@ == "[!] "@ + prefixed(msg@),
{
    String::from_str("[!] ").concat(with_prefix(&msg).as_str())
}

} // verus!
