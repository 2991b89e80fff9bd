//! Checking what was downloaded: hashes, and what follows from them.
use sha1::Digest;
use vstd::prelude::*;

use crate::num::{digit_char, digit_value, number_of};
use crate::text::{ascii_lower, is_ascii, lowercase, opt_str, same_text, to_chars, to_lower};

verus! {

/// The SHA-1 digest of some data.
pub uninterp spec fn sha1_digest(data: Seq<u8>) -> Seq<u8>;

/// `sha1::Sha1::digest` gives the SHA-1 digest of its argument, which is twenty
/// bytes long.
#[verifier::external_body]
fn sha1_of(data: &Vec<u8>) -> (r: Vec<u8>)
    ensures
        r@ == sha1_digest(data@),
        r@.len() == 20,
{
    sha1::Sha1::digest(data).to_vec()
}

/// Two hexadecimal digits for a byte.
pub open spec fn hex_byte(b: u8) -> Seq<char> {
    seq![digit_char((b / 16) as nat), digit_char((b % 16) as nat)]
}

/// The bytes in hexadecimal.
pub open spec fn hex(data: Seq<u8>) -> Seq<char>
    decreases data.len(),
{
    if data.len() == 0 {
        Seq::empty()
    } else {
        hex(data.drop_last()) + hex_byte(data.last())
    }
}

fn hex_digit(d: u8) -> (c: char)
    requires
        d < 16,
    ensures
        c == digit_char(d as nat),
{
    if d < 10 {
        (48u8 + d) as char
    } else {
        (87u8 + d) as char
    }
}

/// Writes bytes in hexadecimal.
pub fn hex_text(data: &Vec<u8>) -> (r: String)
    ensures
        r@ == hex(data@),
{
    let mut s = String::new();
    let n = data.len();
    let mut i: usize = 0;
    assert(data@.take(0) =~= Seq::empty());
    while i < n
        invariant
            i <= n,
            n == data@.len(),
            s@ == hex(data@.take(i as int)),
        decreases n - i,
    {
        let b = data[i];
        let ghost before = s@;
        s.push(hex_digit(b / 16));
        s.push(hex_digit(b % 16));
        assert(data@.take(i + 1).drop_last() =~= data@.take(i as int));
        assert(data@.take(i + 1).last() == b);
        assert(s@ =~= before + hex_byte(b));
        i = i + 1;
    }
    assert(data@.take(n as int) =~= data@);
    s
}

/// The SHA-1 digest of some data, in hexadecimal.
pub fn sha1_text(data: &Vec<u8>) -> (r: String)
    ensures
        r@ == hex(sha1_digest(data@)),
{
    hex_text(&sha1_of(data))
}

/// What is on disk at a path.
#[derive(Debug)]
pub enum FileState {
    /// Nothing.
    Missing,
    /// A file with this content.
    Content(Vec<u8>),
    /// Something that could not be read, and why.
    Unreadable(String),
}

/// What came of checking a file.
#[derive(Debug)]
pub enum Verdict {
    /// It is as expected.
    Verified(String),
    /// It is not, which is no more than a warning.
    Warned(String),
    /// It is not, which is an error.
    Failed(String),
}

/// What a verdict holds.
pub enum VerdictFacts {
    Verified(Seq<char>),
    Warned(Seq<char>),
    Failed(Seq<char>),
}

impl View for Verdict {
    type V = VerdictFacts;

    open spec fn view(&self) -> VerdictFacts {
        match self {
            Verdict::Verified(s) => VerdictFacts::Verified(s@),
            Verdict::Warned(s) => VerdictFacts::Warned(s@),
            Verdict::Failed(s) => VerdictFacts::Failed(s@),
        }
    }
}

/// What a complaint comes to: an error about a required file, and a warning
/// about any other.
pub open spec fn complaint(required: bool, message: Seq<char>) -> VerdictFacts {
    if required {
        VerdictFacts::Failed(message)
    } else {
        VerdictFacts::Warned(message)
    }
}

fn complain(required: bool, message: String) -> (r: Verdict)
    ensures
        r@ == complaint(required, message@),
{
    if required {
        Verdict::Failed(message)
    } else {
        Verdict::Warned(message)
    }
}

/// What comes of a file's digest: it is compared in lower case with what is
/// expected.
pub open spec fn digest_verdict(
    required: bool,
    path: Seq<char>,
    actual: Seq<char>,
    actual_lower: Seq<char>,
    expected_lower: Seq<char>,
) -> VerdictFacts {
    if actual_lower == expected_lower {
        VerdictFacts::Verified(path + " sha1 verified"@)
    } else {
        complaint(required, path + " sha1 invalid expected:"@ + expected_lower + " actual:"@ + actual)
    }
}

/// Judges a file by its digest, given along with its lower-case form and that of
/// the expected one.
pub fn judge_digest(required: bool, path: &str, actual: &str, actual_lower: &str, expected_lower: &str) -> (r: Verdict)
    ensures
        r@ == digest_verdict(required, path@, actual@, actual_lower@, expected_lower@),
{
    let mut s = path.to_owned();
    if same_text(actual_lower, expected_lower) {
        s.append(" sha1 verified");
        return Verdict::Verified(s);
    }
    s.append(" sha1 invalid expected:");
    s.append(expected_lower);
    s.append(" actual:");
    s.append(actual);
    complain(required, s)
}

/// What comes of checking a file against an expected hash.
pub open spec fn hash_verdict(required: bool, path: Seq<char>, state: FileState, expected: Seq<char>) -> VerdictFacts {
    match state {
        FileState::Missing => complaint(required, "missing required file: "@ + path),
        FileState::Unreadable(e) => VerdictFacts::Failed(e@),
        FileState::Content(data) => digest_verdict(
            required,
            path,
            hex(sha1_digest(data@)),
            lowercase(hex(sha1_digest(data@))),
            lowercase(expected),
        ),
    }
}

proof fn lemma_hex_is_ascii(data: Seq<u8>)
    ensures
        is_ascii(hex(data)),
    decreases data.len(),
{
    if data.len() > 0 {
        lemma_hex_is_ascii(data.drop_last());
    }
}

/// Checks a file against an expected hash, in whatever case that is written.
/// Where the file is not required, what is wrong with it is only a warning,
/// unless it cannot be read.
pub fn verify_hash(required: bool, path: &str, state: &FileState, expected: &str) -> (r: Verdict)
    ensures
        r@ == hash_verdict(required, path@, *state, expected@),
        match state {
            FileState::Content(data) => is_ascii(expected@) ==> (r is Verified <==> same_but_for_case(
                hex(sha1_digest(data@)),
                expected@,
            )),
            _ => !(r is Verified),
        },
{
    let expected_lower = to_lower(expected);
    match state {
        FileState::Missing => {
            let mut s = String::from_str("missing required file: ");
            s.append(path);
            complain(required, s)
        },
        FileState::Unreadable(e) => Verdict::Failed(e.as_str().to_owned()),
        FileState::Content(data) => {
            let actual = sha1_text(data);
            let actual_lower = to_lower(actual.as_str());
            proof {
                lemma_hex_is_ascii(sha1_digest(data@));
                if is_ascii(expected@) {
                    let a = actual_lower@;
                    let e = expected_lower@;
                    assert(a.len() == actual@.len());
                    assert(e.len() == expected@.len());
                    if a == e {
                        assert forall|i: int| 0 <= i < actual@.len() implies ascii_lower(#[trigger] actual@[i])
                            == ascii_lower(expected@[i]) by {
                            assert(a[i] == ascii_lower(actual@[i]));
                            assert(e[i] == ascii_lower(expected@[i]));
                        }
                    }
                    if same_but_for_case(actual@, expected@) {
                        assert(a =~= e);
                    }
                }
            }
            judge_digest(required, path, actual.as_str(), actual_lower.as_str(), expected_lower.as_str())
        },
    }
}

/// Whether two texts are the same but for the case of ASCII letters.
pub open spec fn same_but_for_case(a: Seq<char>, b: Seq<char>) -> bool {
    a.len() == b.len() && forall|i: int| 0 <= i < a.len() ==> ascii_lower(#[trigger] a[i]) == ascii_lower(b[i])
}

fn lower(c: char) -> (r: char)
    ensures
        r == ascii_lower(c),
{
    if 'A' <= c && c <= 'Z' {
        (c as u8 + 32) as char
    } else {
        c
    }
}

/// Whether two texts are the same but for the case of ASCII letters.
pub fn eq_ignoring_case(a: &str, b: &str) -> (r: bool)
    ensures
        r == same_but_for_case(a@, b@),
{
    let v = to_chars(a);
    let w = to_chars(b);
    let n = v.len();
    if n != w.len() {
        return false;
    }
    let mut i: usize = 0;
    while i < n
        invariant
            i <= n,
            n == v@.len(),
            n == w@.len(),
            v@ == a@,
            w@ == b@,
            forall|j: int| 0 <= j < i ==> ascii_lower(#[trigger] v@[j]) == ascii_lower(w@[j]),
        decreases n - i,
    {
        if lower(v[i]) != lower(w[i]) {
            assert(ascii_lower(a@[i as int]) != ascii_lower(b@[i as int]));
            return false;
        }
        i = i + 1;
    }
    true
}

/// What is done with a file that stands where one is to be downloaded.
#[derive(Debug)]
pub enum Present {
    /// It is kept, and this is said.
    Keep(String),
    /// It is replaced, and this is said.
    Replace(String),
}

/// What comes of a file that is already there: it is kept where its digest is
/// the expected one, or where none is expected.
pub open spec fn keeps(actual: Seq<char>, expected: Option<Seq<char>>) -> bool {
    expected is None || same_but_for_case(actual, expected->0)
}

/// Whether `r` says what comes of a file that is already there.
pub open spec fn is_present_verdict(
    r: Present,
    dest: Seq<char>,
    actual: Seq<char>,
    expected: Option<Seq<char>>,
) -> bool {
    match r {
        Present::Keep(s) => keeps(actual, expected) && s@ == if expected is Some {
            dest + " already present and verified"@
        } else {
            dest + " already present"@
        },
        Present::Replace(s) => !keeps(actual, expected) && s@ == "sha1 mismatch for "@ + dest + ", re-acquiring"@,
    }
}

/// Judges a file that is already there by its digest.
pub fn judge_present(dest: &str, actual: &str, expected: Option<&str>) -> (r: Present)
    ensures
        is_present_verdict(r, dest@, actual@, opt_str(expected)),
{
    match expected {
        Some(e) => {
            if eq_ignoring_case(actual, e) {
                let mut s = dest.to_owned();
                s.append(" already present and verified");
                Present::Keep(s)
            } else {
                let mut s = String::from_str("sha1 mismatch for ");
                s.append(dest);
                s.append(", re-acquiring");
                Present::Replace(s)
            }
        },
        None => {
            let mut s = dest.to_owned();
            s.append(" already present");
            Present::Keep(s)
        },
    }
}

/// Decides on a file that is already there, by its content.
pub fn check_present(dest: &str, data: &Vec<u8>, expected: Option<&str>) -> (r: Present)
    ensures
        is_present_verdict(r, dest@, hex(sha1_digest(data@)), opt_str(expected)),
{
    match expected {
        Some(_) => judge_present(dest, sha1_text(data).as_str(), expected),
        None => judge_present(dest, "", expected),
    }
}

/// Whether `r` says what comes of a file that was downloaded.
pub open spec fn is_download_verdict(
    r: Result<String, String>,
    dest: Seq<char>,
    actual: Seq<char>,
    expected: Option<Seq<char>>,
) -> bool {
    match r {
        Ok(s) => keeps(actual, expected) && s@ == if expected is Some {
            dest + " downloaded and verified"@
        } else {
            dest + " downloaded"@
        },
        Err(s) => !keeps(actual, expected) && s@ == "sha1 mismatch for "@ + dest + ": expected "@ + expected->0
            + ", got "@ + actual,
    }
}

/// Judges a file that was downloaded by its digest.
pub fn judge_download(dest: &str, actual: &str, expected: Option<&str>) -> (r: Result<String, String>)
    ensures
        is_download_verdict(r, dest@, actual@, opt_str(expected)),
{
    match expected {
        Some(e) => {
            if eq_ignoring_case(actual, e) {
                let mut s = dest.to_owned();
                s.append(" downloaded and verified");
                Ok(s)
            } else {
                let mut s = String::from_str("sha1 mismatch for ");
                s.append(dest);
                s.append(": expected ");
                s.append(e);
                s.append(", got ");
                s.append(actual);
                Err(s)
            }
        },
        None => {
            let mut s = dest.to_owned();
            s.append(" downloaded");
            Ok(s)
        },
    }
}

/// Decides on a file that was downloaded, by its content.
pub fn check_download(dest: &str, data: &Vec<u8>, expected: Option<&str>) -> (r: Result<String, String>)
    ensures
        is_download_verdict(r, dest@, hex(sha1_digest(data@)), opt_str(expected)),
{
    match expected {
        Some(_) => judge_download(dest, sha1_text(data).as_str(), expected),
        None => judge_download(dest, "", expected),
    }
}

/// What a download says before it begins.
pub fn download_message(url: &str, dest: &str) -> (r: String)
    ensures
        r@ == "downloading "@ + url@ + " -> "@ + dest@,
{
    let mut s = String::from_str("downloading ");
    s.append(url);
    s.append(" -> ");
    s.append(dest);
    s
}

/// A digest is written two digits to the byte, in their order, and each pair tells
/// its byte.
pub proof fn law_hex_tells_every_byte(data: Seq<u8>, i: int)
    requires
        0 <= i < data.len(),
    ensures
        hex(data).len() == 2 * data.len(),
        number_of(hex(data).subrange(2 * i, 2 * i + 2), 16) == data[i],
    decreases data.len(),
{
    let before = hex(data.drop_last());
    lemma_hex_len(data);
    lemma_hex_len(data.drop_last());
    let pair = hex(data).subrange(2 * i, 2 * i + 2);
    if i < data.len() - 1 {
        law_hex_tells_every_byte(data.drop_last(), i);
        assert(pair =~= before.subrange(2 * i, 2 * i + 2));
    } else {
        let b = data.last();
        assert(pair =~= hex_byte(b));
        reveal_with_fuel(number_of, 3);
        assert(pair.drop_last() =~= seq![digit_char((b / 16) as nat)]);
        assert(pair.drop_last().drop_last() =~= Seq::empty());
        assert(digit_value(digit_char((b / 16) as nat)) == b / 16);
        assert(digit_value(digit_char((b % 16) as nat)) == b % 16);
    }
}

proof fn lemma_hex_len(data: Seq<u8>)
    ensures
        hex(data).len() == 2 * data.len(),
    decreases data.len(),
{
    if data.len() > 0 {
        lemma_hex_len(data.drop_last());
    }
}

/// A file passes just where it is there and its digest is the expected one, with
/// the case of letters aside. What does not pass is an error of a required file,
/// and of any other a warning, unless it could not be read.
pub proof fn law_only_the_expected_digest_passes(
    required: bool,
    path: Seq<char>,
    state: FileState,
    expected: Seq<char>,
)
    ensures
        hash_verdict(required, path, state, expected) is Verified <==> match state {
            FileState::Content(data) => lowercase(hex(sha1_digest(data@))) == lowercase(expected),
            _ => false,
        },
        required ==> !(hash_verdict(required, path, state, expected) is Warned),
        !required ==> (hash_verdict(required, path, state, expected) is Failed <==> state is Unreadable),
{
}

/// Texts are the same but for the case of letters just where each character is
/// the same, or the one is the small letter and the other its capital.
pub proof fn law_only_the_case_of_letters_is_ignored(a: char, b: char)
    ensures
        same_but_for_case(seq![a], seq![b]) <==> a == b || ('A' <= a <= 'Z' && b as int == a as int + 32) || ('A' <= b
            <= 'Z' && a as int == b as int + 32),
{
    let x = seq![a];
    let y = seq![b];
    if same_but_for_case(x, y) {
        assert(ascii_lower(x[0]) == ascii_lower(y[0]));
    }
}

/// A file that is there is kept where no digest is expected or its own is the
/// expected one, and is fetched again otherwise; one that was fetched is refused
/// just where it would be fetched again.
pub proof fn law_only_what_is_expected_is_kept(
    present: Present,
    download: Result<String, String>,
    dest: Seq<char>,
    actual: Seq<char>,
    expected: Option<Seq<char>>,
)
    requires
        is_present_verdict(present, dest, actual, expected),
        is_download_verdict(download, dest, actual, expected),
    ensures
        expected is None ==> present is Keep && download is Ok,
        expected == Some(actual) ==> present is Keep && download is Ok,
        expected is Some && expected->0.len() != actual.len() ==> present is Replace && download is Err,
        present is Keep <==> download is Ok,
{
}

} // verus!
