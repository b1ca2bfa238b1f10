//! Parsing of package descriptor texts.
//!
//! A descriptor is a sequence of `KEY="VALUE"` assignments; values may
//! span several physical lines, each continuation line ending in a
//! space followed by a backslash. The parser is permissive: text that
//! does not match the assignment shape is skipped, unknown keys are
//! ignored, and a key assigned twice keeps the later value. The one
//! hard failure is the sentinel `%README%` inside a `REQUIRES` value:
//! such a descriptor's dependency list is not machine readable, so
//! parsing fails as a unit.

use vstd::prelude::*;
use vstd::string::StrSliceExecFns;

verus! {

/// A word character: ASCII letter, digit, or underscore. Keys of a
/// descriptor are made of these.
pub open spec fn is_word_char(c: char) -> bool {
    ('a' as u32 <= c as u32 && c as u32 <= 'z' as u32) || ('A' as u32 <= c as u32 && c as u32
        <= 'Z' as u32) || ('0' as u32 <= c as u32 && c as u32 <= '9' as u32) || c == '_'
}

/// Whitespace as the `REQUIRES` field is split on.
pub open spec fn is_space_char(c: char) -> bool {
    c == ' ' || c == '\t' || c == '\n' || c == '\r'
}

/// The first position at or after `i` holding character `c`, if any.
pub open spec fn find_char(s: Seq<char>, i: int, c: char) -> Option<int>
    decreases s.len() - i,
    when 0 <= i
{
    if i >= s.len() {
        None
    } else if s[i] == c {
        Some(i)
    } else {
        find_char(s, i + 1, c)
    }
}

/// What `find_char` returns: the first occurrence at or after `i`.
pub proof fn lemma_find_char(s: Seq<char>, i: int, c: char)
    requires
        0 <= i,
    ensures
        match find_char(s, i, c) {
            Some(j) => i <= j < s.len() && s[j] == c && (forall|x: int| i <= x < j ==> s[x] != c),
            None => forall|x: int| i <= x < s.len() ==> s[x] != c,
        },
    decreases s.len() - i,
{
    if i >= s.len() {
    } else if s[i] == c {
    } else {
        lemma_find_char(s, i + 1, c);
    }
}

/// The start of the word-character run ending just before `p`.
pub open spec fn key_start(s: Seq<char>, p: int) -> int
    decreases p,
    when 0 <= p <= s.len()
{
    if p <= 0 {
        0
    } else if is_word_char(s[p - 1]) {
        key_start(s, p - 1)
    } else {
        p
    }
}

/// Whether an assignment's `="` sits at position `p`: an equals sign,
/// an opening quote, and at least one word character just before.
pub open spec fn assign_at(s: Seq<char>, p: int) -> bool {
    0 < p && p + 1 < s.len() && s[p] == '=' && s[p + 1] == '"' && is_word_char(s[p - 1])
}

/// Whether `pat` occurs as a contiguous part of `hay`.
pub open spec fn contains_sub(hay: Seq<char>, pat: Seq<char>) -> bool {
    exists|i: int|
        0 <= i && i + pat.len() <= hay.len() && #[trigger] hay.subrange(i, i + pat.len() as int)
            == pat
}

/// Whether the sentinel `%README%` occurs in a value.
pub open spec fn contains_readme(v: Seq<char>) -> bool {
    contains_sub(v, "%README%"@)
}

/// A line with one trailing carriage return removed.
pub open spec fn strip_cr_end(l: Seq<char>) -> Seq<char> {
    if l.len() > 0 && l[l.len() - 1] == '\r' {
        l.subrange(0, l.len() - 1)
    } else {
        l
    }
}

/// A line with every trailing continuation marker (a space followed
/// by a backslash) removed.
pub open spec fn strip_marker(l: Seq<char>) -> Seq<char>
    decreases l.len(),
{
    if l.len() >= 2 && l[l.len() - 2] == ' ' && l[l.len() - 1] == '\\' {
        strip_marker(l.subrange(0, l.len() - 2))
    } else {
        l
    }
}

/// The elements of a multi-line value, from position `i` on: one per
/// physical line, line endings and continuation markers removed.
pub open spec fn multiline_at(s: Seq<char>, i: int) -> Seq<Seq<char>>
    decreases s.len() - i,
    when 0 <= i
{
    if i >= s.len() {
        Seq::empty()
    } else {
        match find_char(s, i, '\n') {
            None => seq![strip_marker(s.subrange(i, s.len() as int))],
            Some(j) => {
                proof {
                    lemma_find_char(s, i, '\n');
                }
                seq![strip_marker(strip_cr_end(s.subrange(i, j)))] + multiline_at(s, j + 1)
            },
        }
    }
}

/// The elements of a multi-valued field parsed from one raw value.
pub open spec fn multiline(v: Seq<char>) -> Seq<Seq<char>> {
    multiline_at(v, 0)
}

/// The end of the whitespace-free run starting at `i`: the first
/// position at or after `i` holding whitespace, or the end of `s`.
pub open spec fn token_end(s: Seq<char>, i: int) -> int
    decreases s.len() - i,
    when 0 <= i
{
    if i >= s.len() {
        i
    } else if is_space_char(s[i]) {
        i
    } else {
        token_end(s, i + 1)
    }
}

/// What `token_end` returns: a position no earlier than `i`, with no
/// whitespace strictly before it, and whitespace at it unless at the end.
pub proof fn lemma_token_end(s: Seq<char>, i: int)
    requires
        0 <= i <= s.len(),
    ensures
        i <= token_end(s, i) <= s.len(),
        forall|x: int| i <= x < token_end(s, i) ==> !is_space_char(s[x]),
        token_end(s, i) < s.len() ==> is_space_char(s[token_end(s, i)]),
    decreases s.len() - i,
{
    if i >= s.len() {
    } else if is_space_char(s[i]) {
    } else {
        lemma_token_end(s, i + 1);
    }
}

/// The whitespace-separated tokens of `s`, from position `i` on.
pub open spec fn split_ws_at(s: Seq<char>, i: int) -> Seq<Seq<char>>
    decreases s.len() - i,
    when 0 <= i
{
    if i >= s.len() {
        Seq::empty()
    } else if is_space_char(s[i]) {
        split_ws_at(s, i + 1)
    } else {
        proof {
            lemma_token_end(s, i);
        }
        seq![s.subrange(i, token_end(s, i))] + split_ws_at(s, token_end(s, i))
    }
}

/// The whitespace-separated tokens of a `REQUIRES` value, in order.
pub open spec fn split_ws(s: Seq<char>) -> Seq<Seq<char>> {
    split_ws_at(s, 0)
}

/// The effect of one `KEY="VALUE"` assignment on a descriptor:
/// a recognized key replaces its field, any other key does nothing.
pub open spec fn apply_assign(v: SboInfoView, key: Seq<char>, val: Seq<char>) -> SboInfoView {
    if key == "PRGNAM"@ {
        SboInfoView { program_name: val, ..v }
    } else if key == "VERSION"@ {
        SboInfoView { version: val, ..v }
    } else if key == "HOMEPAGE"@ {
        SboInfoView { homepage: val, ..v }
    } else if key == "DOWNLOAD"@ {
        SboInfoView { download: multiline(val), ..v }
    } else if key == "MD5SUM"@ {
        SboInfoView { md5sum: multiline(val), ..v }
    } else if key == "DOWNLOAD_x86_64"@ {
        SboInfoView { download_x86_64: multiline(val), ..v }
    } else if key == "MD5SUM_x86_64"@ {
        SboInfoView { md5sum_x86_64: multiline(val), ..v }
    } else if key == "REQUIRES"@ {
        SboInfoView { requires: split_ws(val), ..v }
    } else if key == "MAINTAINER"@ {
        SboInfoView { maintainer: val, ..v }
    } else if key == "EMAIL"@ {
        SboInfoView { email: val, ..v }
    } else {
        v
    }
}

/// The descriptor after scanning `s` for assignments from position
/// `p` on, starting from descriptor `v`; `None` when a `REQUIRES`
/// value holding the sentinel `%README%` is reached.
pub open spec fn parse_at(v: SboInfoView, s: Seq<char>, p: int) -> Option<SboInfoView>
    decreases s.len() - p,
    when 0 <= p
{
    if p + 1 >= s.len() {
        Some(v)
    } else if assign_at(s, p) {
        match find_char(s, p + 2, '"') {
            None => Some(v),
            Some(q) => {
                proof {
                    lemma_find_char(s, p + 2, '"');
                }
                let key = s.subrange(key_start(s, p), p);
                let val = s.subrange(p + 2, q);
                if key == "REQUIRES"@ && contains_readme(val) {
                    None
                } else {
                    parse_at(apply_assign(v, key, val), s, q + 1)
                }
            },
        }
    } else {
        parse_at(v, s, p + 1)
    }
}

/// The result of parsing a whole descriptor text on top of `v`.
pub open spec fn spec_parse(v: SboInfoView, s: Seq<char>) -> Option<SboInfoView> {
    parse_at(v, s, 0)
}

/// Whether the scan from position `p` on reaches a `REQUIRES`
/// assignment whose value holds the sentinel `%README%`.
pub open spec fn readme_blocked(s: Seq<char>, p: int) -> bool
    decreases s.len() - p,
    when 0 <= p
{
    if p + 1 >= s.len() {
        false
    } else if assign_at(s, p) {
        match find_char(s, p + 2, '"') {
            None => false,
            Some(q) => {
                proof {
                    lemma_find_char(s, p + 2, '"');
                }
                let key = s.subrange(key_start(s, p), p);
                let val = s.subrange(p + 2, q);
                if key == "REQUIRES"@ && contains_readme(val) {
                    true
                } else {
                    readme_blocked(s, q + 1)
                }
            },
        }
    } else {
        readme_blocked(s, p + 1)
    }
}

/// Parsing from position `p` fails exactly when the scan reaches a
/// `REQUIRES` assignment whose value holds the sentinel, whatever
/// else that value or the rest of the text holds, and whatever
/// descriptor the parse started from.
pub proof fn lemma_parse_fails_iff_readme(v: SboInfoView, s: Seq<char>, p: int)
    requires
        0 <= p,
    ensures
        (parse_at(v, s, p) is None) == readme_blocked(s, p),
    decreases s.len() - p,
{
    if p + 1 >= s.len() {
    } else if assign_at(s, p) {
        match find_char(s, p + 2, '"') {
            None => {},
            Some(q) => {
                lemma_find_char(s, p + 2, '"');
                let key = s.subrange(key_start(s, p), p);
                let val = s.subrange(p + 2, q);
                if key == "REQUIRES"@ && contains_readme(val) {
                } else {
                    lemma_parse_fails_iff_readme(apply_assign(v, key, val), s, q + 1);
                }
            },
        }
    } else {
        lemma_parse_fails_iff_readme(v, s, p + 1);
    }
}

/// The raw value of the last assignment to `key` in the scan from
/// position `p` on, if there is one.
pub open spec fn last_value(s: Seq<char>, p: int, key: Seq<char>) -> Option<Seq<char>>
    decreases s.len() - p,
    when 0 <= p
{
    if p + 1 >= s.len() {
        None
    } else if assign_at(s, p) {
        match find_char(s, p + 2, '"') {
            None => None,
            Some(q) => {
                proof {
                    lemma_find_char(s, p + 2, '"');
                }
                let k = s.subrange(key_start(s, p), p);
                let val = s.subrange(p + 2, q);
                let rest = last_value(s, q + 1, key);
                if rest is Some {
                    rest
                } else if k == key {
                    Some(val)
                } else {
                    None
                }
            },
        }
    } else {
        last_value(s, p + 1, key)
    }
}

/// A successful parse sets every field from the last assignment to
/// its key, and keeps the starting descriptor's value where the text
/// assigns none.
pub proof fn lemma_parse_fields(v: SboInfoView, s: Seq<char>, p: int)
    requires
        0 <= p,
        parse_at(v, s, p) is Some,
    ensures
        ({
            let d = parse_at(v, s, p).unwrap();
            &&& d.program_name == (match last_value(s, p, "PRGNAM"@) {
                Some(x) => x,
                None => v.program_name,
            })
            &&& d.version == (match last_value(s, p, "VERSION"@) {
                Some(x) => x,
                None => v.version,
            })
            &&& d.homepage == (match last_value(s, p, "HOMEPAGE"@) {
                Some(x) => x,
                None => v.homepage,
            })
            &&& d.download == (match last_value(s, p, "DOWNLOAD"@) {
                Some(x) => multiline(x),
                None => v.download,
            })
            &&& d.md5sum == (match last_value(s, p, "MD5SUM"@) {
                Some(x) => multiline(x),
                None => v.md5sum,
            })
            &&& d.download_x86_64 == (match last_value(s, p, "DOWNLOAD_x86_64"@) {
                Some(x) => multiline(x),
                None => v.download_x86_64,
            })
            &&& d.md5sum_x86_64 == (match last_value(s, p, "MD5SUM_x86_64"@) {
                Some(x) => multiline(x),
                None => v.md5sum_x86_64,
            })
            &&& d.requires == (match last_value(s, p, "REQUIRES"@) {
                Some(x) => split_ws(x),
                None => v.requires,
            })
            &&& d.maintainer == (match last_value(s, p, "MAINTAINER"@) {
                Some(x) => x,
                None => v.maintainer,
            })
            &&& d.email == (match last_value(s, p, "EMAIL"@) {
                Some(x) => x,
                None => v.email,
            })
        }),
    decreases s.len() - p,
{
    reveal_strlit("PRGNAM");
    reveal_strlit("VERSION");
    reveal_strlit("HOMEPAGE");
    reveal_strlit("DOWNLOAD");
    reveal_strlit("MD5SUM");
    reveal_strlit("DOWNLOAD_x86_64");
    reveal_strlit("MD5SUM_x86_64");
    reveal_strlit("REQUIRES");
    reveal_strlit("MAINTAINER");
    reveal_strlit("EMAIL");
    assert("PRGNAM"@.len() == 6);
    assert("VERSION"@.len() == 7);
    assert("HOMEPAGE"@.len() == 8);
    assert("DOWNLOAD"@.len() == 8);
    assert("MD5SUM"@.len() == 6);
    assert("DOWNLOAD_x86_64"@.len() == 15);
    assert("MD5SUM_x86_64"@.len() == 13);
    assert("REQUIRES"@.len() == 8);
    assert("MAINTAINER"@.len() == 10);
    assert("EMAIL"@.len() == 5);
    assert("PRGNAM"@[0] == 'P');
    assert("MD5SUM"@[0] == 'M');
    assert("HOMEPAGE"@[0] == 'H');
    assert("DOWNLOAD"@[0] == 'D');
    assert("REQUIRES"@[0] == 'R');
    if p + 1 >= s.len() {
    } else if assign_at(s, p) {
        match find_char(s, p + 2, '"') {
            None => {},
            Some(q) => {
                lemma_find_char(s, p + 2, '"');
                let k = s.subrange(key_start(s, p), p);
                let val = s.subrange(p + 2, q);
                if k == "REQUIRES"@ && contains_readme(val) {
                } else {
                    lemma_parse_fields(apply_assign(v, k, val), s, q + 1);
                }
            },
        }
    } else {
        lemma_parse_fields(v, s, p + 1);
    }
}

/// For a well-formed descriptor text — one whose last `DOWNLOAD` and
/// `MD5SUM` values split into equally many entries, either pair member
/// assigned exactly when the other is, and likewise for the
/// architecture-specific pair — parsing from an empty descriptor
/// yields as many checksums as download sources.
pub proof fn lemma_download_checksum_balance(s: Seq<char>, d: SboInfoView)
    requires
        spec_parse(init_view(), s) == Some(d),
        match (last_value(s, 0, "DOWNLOAD"@), last_value(s, 0, "MD5SUM"@)) {
            (Some(a), Some(b)) => multiline(a).len() == multiline(b).len(),
            (None, None) => true,
            _ => false,
        },
        match (last_value(s, 0, "DOWNLOAD_x86_64"@), last_value(s, 0, "MD5SUM_x86_64"@)) {
            (Some(a), Some(b)) => multiline(a).len() == multiline(b).len(),
            (None, None) => true,
            _ => false,
        },
    ensures
        d.download.len() == d.md5sum.len(),
        d.download_x86_64.len() == d.md5sum_x86_64.len(),
{
    lemma_parse_fields(init_view(), s, 0);
}

/// Parsing is idempotent: parsing a text on top of its own successful
/// parse changes nothing, so parsing the same text twice yields equal
/// descriptors.
pub proof fn lemma_parse_idempotent(v: SboInfoView, s: Seq<char>, d: SboInfoView)
    requires
        spec_parse(v, s) == Some(d),
    ensures
        spec_parse(d, s) == Some(d),
{
    lemma_parse_fails_iff_readme(v, s, 0);
    lemma_parse_fails_iff_readme(d, s, 0);
    lemma_parse_fields(v, s, 0);
    lemma_parse_fields(d, s, 0);
    assert(parse_at(d, s, 0).unwrap() =~= d);
}

/// Error of parsing a whole descriptor: the descriptor cannot be used.
#[derive(Debug, Clone)]
pub struct SboInfoError;

impl SboInfoError {
    /// The message this error reports.
    pub fn message(&self) -> (r: String)
        ensures
            r@ == "Package info has errors, unable to proceed"@,
    {
        "Package info has errors, unable to proceed".to_owned()
    }
}

/// Error of the `REQUIRES` field: the sentinel `%README%` was found.
#[derive(Debug, Clone)]
pub struct RequiresError;

impl RequiresError {
    /// The message this error reports.
    pub fn message(&self) -> (r: String)
        ensures
            r@ == "%README% found in requires, unable to proceed"@,
    {
        "%README% found in requires, unable to proceed".to_owned()
    }
}

/// One package descriptor, with every field as parsed from the text.
#[derive(Debug, PartialEq)]
pub struct SboInfo {
    pub program_name: String,
    pub version: String,
    pub homepage: String,
    pub download: Vec<String>,
    pub md5sum: Vec<String>,
    pub download_x86_64: Vec<String>,
    pub md5sum_x86_64: Vec<String>,
    pub requires: Vec<String>,
    pub maintainer: String,
    pub email: String,
}

/// Mathematical model of a descriptor: each field as a sequence of
/// characters, multi-valued fields as sequences of those.
#[verifier::ext_equal]
pub struct SboInfoView {
    pub program_name: Seq<char>,
    pub version: Seq<char>,
    pub homepage: Seq<char>,
    pub download: Seq<Seq<char>>,
    pub md5sum: Seq<Seq<char>>,
    pub download_x86_64: Seq<Seq<char>>,
    pub md5sum_x86_64: Seq<Seq<char>>,
    pub requires: Seq<Seq<char>>,
    pub maintainer: Seq<char>,
    pub email: Seq<char>,
}

impl View for SboInfo {
    type V = SboInfoView;

    open spec fn view(&self) -> SboInfoView {
        SboInfoView {
            program_name: self.program_name@,
            version: self.version@,
            homepage: self.homepage@,
            download: self.download.deep_view(),
            md5sum: self.md5sum.deep_view(),
            download_x86_64: self.download_x86_64.deep_view(),
            md5sum_x86_64: self.md5sum_x86_64.deep_view(),
            requires: self.requires.deep_view(),
            maintainer: self.maintainer@,
            email: self.email@,
        }
    }
}

/// The descriptor every parse starts from: all fields empty.
pub open spec fn init_view() -> SboInfoView {
    SboInfoView {
        program_name: Seq::empty(),
        version: Seq::empty(),
        homepage: Seq::empty(),
        download: Seq::empty(),
        md5sum: Seq::empty(),
        download_x86_64: Seq::empty(),
        md5sum_x86_64: Seq::empty(),
        requires: Seq::empty(),
        maintainer: Seq::empty(),
        email: Seq::empty(),
    }
}

impl Default for SboInfo {
    fn default() -> (r: SboInfo)
        ensures
            r@ == init_view(),
    {
        let r = SboInfo {
            program_name: String::new(),
            version: String::new(),
            homepage: String::new(),
            download: Vec::new(),
            md5sum: Vec::new(),
            download_x86_64: Vec::new(),
            md5sum_x86_64: Vec::new(),
            requires: Vec::new(),
            maintainer: String::new(),
            email: String::new(),
        };
        proof {
            assert(r@ =~= init_view());
        }
        r
    }
}

/// Whether `c` is a word character, as `is_word_char` says.
fn word_char(c: char) -> (r: bool)
    ensures
        r == is_word_char(c),
{
    let u = c as u32;
    ('a' as u32 <= u && u <= 'z' as u32) || ('A' as u32 <= u && u <= 'Z' as u32) || ('0' as u32
        <= u && u <= '9' as u32) || c == '_'
}

/// Whether `c` is whitespace, as `is_space_char` says.
fn space_char(c: char) -> (r: bool)
    ensures
        r == is_space_char(c),
{
    c == ' ' || c == '\t' || c == '\n' || c == '\r'
}

/// Whether two strings hold the same characters.
pub(crate) fn str_eq(a: &str, b: &str) -> (r: bool)
    ensures
        r == (a@ == b@),
{
    let na = a.unicode_len();
    let nb = b.unicode_len();
    if na != nb {
        return false;
    }
    let mut i: usize = 0;
    while i < na
        invariant
            i <= na,
            na == a@.len(),
            na == b@.len(),
            forall|j: int| 0 <= j < i ==> a@[j] == b@[j],
        decreases na - i,
    {
        if a.get_char(i) != b.get_char(i) {
            return false;
        }
        i += 1;
    }
    proof {
        assert(a@ =~= b@);
    }
    true
}

/// The first position at or after `i` holding `c`, as `find_char` says.
fn find_char_from(s: &str, i: usize, c: char) -> (r: Option<usize>)
    requires
        i <= s@.len(),
    ensures
        match r {
            Some(j) => i <= j < s@.len() && s@[j as int] == c && find_char(s@, i as int, c)
                == Some(j as int),
            None => find_char(s@, i as int, c) is None,
        },
{
    let n = s.unicode_len();
    let mut j = i;
    while j < n
        invariant
            i <= j <= n,
            n == s@.len(),
            find_char(s@, i as int, c) == find_char(s@, j as int, c),
        decreases n - j,
    {
        if s.get_char(j) == c {
            return Some(j);
        }
        j += 1;
    }
    None
}

/// Whether `pat` occurs as a contiguous part of `hay`.
fn contains_sub_exec(hay: &str, pat: &str) -> (r: bool)
    ensures
        r == contains_sub(hay@, pat@),
{
    let nh = hay.unicode_len();
    let np = pat.unicode_len();
    if np > nh {
        return false;
    }
    if np == 0 {
        proof {
            assert(hay@.subrange(0, 0 + pat@.len() as int) =~= pat@);
        }
        return true;
    }
    let mut i: usize = 0;
    while i <= nh - np
        invariant
            0 < np <= nh,
            nh == hay@.len(),
            np == pat@.len(),
            forall|k: int| 0 <= k < i ==> #[trigger] hay@.subrange(k, k + pat@.len() as int) != pat@,
        decreases nh - np - i + 1,
    {
        if str_eq(hay.substring_char(i, i + np), pat) {
            return true;
        }
        i += 1;
    }
    false
}

/// A copy of `l` with every trailing continuation marker removed.
fn strip_marker_exec(l: &str) -> (r: String)
    ensures
        r@ == strip_marker(l@),
{
    let mut end = l.unicode_len();
    proof {
        assert(l@.subrange(0, l@.len() as int) =~= l@);
    }
    while end >= 2 && l.get_char(end - 2) == ' ' && l.get_char(end - 1) == '\\'
        invariant
            end <= l@.len(),
            strip_marker(l@) == strip_marker(l@.subrange(0, end as int)),
        decreases end,
    {
        proof {
            assert(l@.subrange(0, end as int).subrange(0, end - 2) =~= l@.subrange(
                0,
                end - 2,
            ));
        }
        end -= 2;
    }
    let r = l.substring_char(0, end).to_owned();
    r
}

/// The elements of one multi-line value: one per physical line, line
/// endings and continuation markers removed.
pub fn multiline_to_vec(contents: &str) -> (r: Vec<String>)
    ensures
        r.deep_view() == multiline(contents@),
{
    let mut r: Vec<String> = Vec::new();
    let n = contents.unicode_len();
    let mut i: usize = 0;
    while i < n
        invariant
            i <= n,
            n == contents@.len(),
            multiline(contents@) =~= r.deep_view() + multiline_at(contents@, i as int),
        decreases n - i,
    {
        match find_char_from(contents, i, '\n') {
            None => {
                let line = contents.substring_char(i, n);
                let stripped = strip_marker_exec(line);
                r.push(stripped);
                i = n;
            },
            Some(j) => {
                let line = contents.substring_char(i, j);
                let has_cr = j > i && contents.get_char(j - 1) == '\r';
                let line2 = if has_cr {
                    contents.substring_char(i, j - 1)
                } else {
                    line
                };
                proof {
                    if has_cr {
                        assert(line2@ =~= strip_cr_end(contents@.subrange(i as int, j as int)));
                    } else {
                        assert(line2@ =~= strip_cr_end(contents@.subrange(i as int, j as int)));
                    }
                }
                let stripped = strip_marker_exec(line2);
                r.push(stripped);
                i = j + 1;
            },
        }
    }
    proof {
        assert(multiline(contents@) =~= r.deep_view());
    }
    r
}

/// The whitespace-separated tokens of `s`, in order.
fn split_ws_vec(s: &str) -> (r: Vec<String>)
    ensures
        r.deep_view() == split_ws(s@),
{
    let mut r: Vec<String> = Vec::new();
    let n = s.unicode_len();
    let mut i: usize = 0;
    while i < n
        invariant
            i <= n,
            n == s@.len(),
            split_ws(s@) =~= r.deep_view() + split_ws_at(s@, i as int),
        decreases n - i,
    {
        let c = s.get_char(i);
        if space_char(c) {
            i += 1;
        } else {
            let mut j = i;
            while j < n && !space_char(s.get_char(j))
                invariant
                    i <= j <= n,
                    n == s@.len(),
                    token_end(s@, i as int) == token_end(s@, j as int),
                decreases n - j,
            {
                j += 1;
            }
            let tok = s.substring_char(i, j).to_owned();
            r.push(tok);
            i = j;
        }
    }
    proof {
        assert(split_ws(s@) =~= r.deep_view());
    }
    r
}

/// A copy of a vector of strings, holding the same characters.
pub(crate) fn clone_string_vec(v: &Vec<String>) -> (r: Vec<String>)
    ensures
        r.deep_view() == v.deep_view(),
{
    let mut r: Vec<String> = Vec::new();
    let mut i: usize = 0;
    while i < v.len()
        invariant
            i <= v.len(),
            r@.len() == i,
            forall|j: int| 0 <= j < i ==> r.deep_view()[j] == v.deep_view()[j],
        decreases v.len() - i,
    {
        r.push(v[i].clone());
        i += 1;
    }
    proof {
        assert(r.deep_view() =~= v.deep_view());
    }
    r
}

impl Clone for SboInfo {
    /// A copy of the descriptor, with the same model.
    fn clone(&self) -> (r: Self)
        ensures
            r@ == self@,
    {
        let r = SboInfo {
            program_name: self.program_name.clone(),
            version: self.version.clone(),
            homepage: self.homepage.clone(),
            download: clone_string_vec(&self.download),
            md5sum: clone_string_vec(&self.md5sum),
            download_x86_64: clone_string_vec(&self.download_x86_64),
            md5sum_x86_64: clone_string_vec(&self.md5sum_x86_64),
            requires: clone_string_vec(&self.requires),
            maintainer: self.maintainer.clone(),
            email: self.email.clone(),
        };
        proof {
            assert(r@ =~= self@);
        }
        r
    }
}

impl SboInfo {
    /// A descriptor with all fields empty.
    pub fn new() -> (r: Self)
        ensures
            r@ == init_view(),
    {
        SboInfo::default()
    }

    fn program_name(&mut self, contents: &str)
        ensures
            final(self)@ == (SboInfoView { program_name: contents@, ..old(self)@ }),
    {
        self.program_name = contents.to_owned();
    }

    fn version(&mut self, contents: &str)
        ensures
            final(self)@ == (SboInfoView { version: contents@, ..old(self)@ }),
    {
        self.version = contents.to_owned();
    }

    fn homepage(&mut self, contents: &str)
        ensures
            final(self)@ == (SboInfoView { homepage: contents@, ..old(self)@ }),
    {
        self.homepage = contents.to_owned();
    }

    fn download(&mut self, contents: &str)
        ensures
            final(self)@ == (SboInfoView { download: multiline(contents@), ..old(self)@ }),
    {
        let downloads = multiline_to_vec(contents);
        self.download = downloads;
    }

    fn md5sum(&mut self, contents: &str)
        ensures
            final(self)@ == (SboInfoView { md5sum: multiline(contents@), ..old(self)@ }),
    {
        let checksums = multiline_to_vec(contents);
        self.md5sum = checksums;
    }

    fn download_x86_64(&mut self, contents: &str)
        ensures
            final(self)@ == (SboInfoView { download_x86_64: multiline(contents@), ..old(self)@ }),
    {
        let downloads = multiline_to_vec(contents);
        self.download_x86_64 = downloads;
    }

    fn md5sum_x86_64(&mut self, contents: &str)
        ensures
            final(self)@ == (SboInfoView { md5sum_x86_64: multiline(contents@), ..old(self)@ }),
    {
        let checksums = multiline_to_vec(contents);
        self.md5sum_x86_64 = checksums;
    }

    /// Sets the dependency list from a `REQUIRES` value, refusing one
    /// that holds the sentinel `%README%` and leaving the descriptor
    /// untouched in that case.
    fn set_requires(&mut self, contents: &str) -> (r: Result<(), RequiresError>)
        ensures
            (r is Err) == contains_readme(contents@),
            r is Ok ==> final(self)@ == (SboInfoView { requires: split_ws(contents@), ..old(self)@ }),
            r is Err ==> *final(self) == *old(self),
    {
        if contains_sub_exec(contents, "%README%") {
            return Err(RequiresError);
        }
        let toks = split_ws_vec(contents);
        self.requires = toks;
        Ok(())
    }

    fn maintainer(&mut self, contents: &str)
        ensures
            final(self)@ == (SboInfoView { maintainer: contents@, ..old(self)@ }),
    {
        self.maintainer = contents.to_owned();
    }

    fn email(&mut self, contents: &str)
        ensures
            final(self)@ == (SboInfoView { email: contents@, ..old(self)@ }),
    {
        self.email = contents.to_owned();
    }

    /// No recognized key other than `REQUIRES` itself reads as the
    /// `REQUIRES` key.
    proof fn lemma_keys_distinct()
        ensures
            "PRGNAM"@ != "REQUIRES"@,
            "VERSION"@ != "REQUIRES"@,
            "HOMEPAGE"@ != "REQUIRES"@,
            "DOWNLOAD"@ != "REQUIRES"@,
            "MD5SUM"@ != "REQUIRES"@,
            "DOWNLOAD_x86_64"@ != "REQUIRES"@,
            "MD5SUM_x86_64"@ != "REQUIRES"@,
            "MAINTAINER"@ != "REQUIRES"@,
            "EMAIL"@ != "REQUIRES"@,
    {
        reveal_strlit("PRGNAM");
        reveal_strlit("VERSION");
        reveal_strlit("HOMEPAGE");
        reveal_strlit("DOWNLOAD");
        reveal_strlit("MD5SUM");
        reveal_strlit("DOWNLOAD_x86_64");
        reveal_strlit("MD5SUM_x86_64");
        reveal_strlit("REQUIRES");
        reveal_strlit("MAINTAINER");
        reveal_strlit("EMAIL");
        assert("REQUIRES"@.len() == 8);
        assert("PRGNAM"@.len() == 6);
        assert("VERSION"@.len() == 7);
        assert("MD5SUM"@.len() == 6);
        assert("DOWNLOAD_x86_64"@.len() == 15);
        assert("MD5SUM_x86_64"@.len() == 13);
        assert("MAINTAINER"@.len() == 10);
        assert("EMAIL"@.len() == 5);
        assert("HOMEPAGE"@[0] == 'H');
        assert("DOWNLOAD"@[0] == 'D');
        assert("REQUIRES"@[0] == 'R');
    }

    /// Parses a descriptor text on top of this descriptor.
    ///
    /// Scans the text for `KEY="VALUE"` assignments in order and
    /// applies each recognized key to its field, exactly as
    /// `spec_parse` says. Fails, and only fails, when a `REQUIRES`
    /// value holding the sentinel `%README%` is reached; the fields
    /// are then unusable as a unit.
    pub fn from_str(&mut self, contents: &str) -> (r: Result<(), SboInfoError>)
        ensures
            (r is Ok) == (spec_parse(old(self)@, contents@) is Some),
            r is Ok ==> spec_parse(old(self)@, contents@) == Some(final(self)@),
    {
        let n = contents.unicode_len();
        let mut p: usize = 0;
        while p < n && p + 1 < n
            invariant
                p <= n,
                n == contents@.len(),
                spec_parse(old(self)@, contents@) == parse_at(self@, contents@, p as int),
            decreases n - p,
        {
            proof {
                Self::lemma_keys_distinct();
            }
            let c0 = contents.get_char(p);
            let c1 = contents.get_char(p + 1);
            if c0 == '=' && c1 == '"' && p > 0 && word_char(contents.get_char(p - 1)) {
                let mut k = p;
                while k > 0 && word_char(contents.get_char(k - 1))
                    invariant
                        k <= p,
                        p <= n,
                        n == contents@.len(),
                        key_start(contents@, p as int) == key_start(contents@, k as int),
                    decreases k,
                {
                    k -= 1;
                }
                match find_char_from(contents, p + 2, '"') {
                    None => {
                        return Ok(());
                    },
                    Some(q) => {
                        let key = contents.substring_char(k, p);
                        let value = contents.substring_char(p + 2, q);
                        let ghost v0 = self@;
                        proof {
                            assert(assign_at(contents@, p as int));
                            assert(key_start(contents@, p as int) == k as int);
                            assert(key@ == contents@.subrange(k as int, p as int));
                            assert(value@ == contents@.subrange(p as int + 2, q as int));
                        }
                        if str_eq(key, "PRGNAM") {
                            self.program_name(value);
                        } else if str_eq(key, "VERSION") {
                            self.version(value);
                        } else if str_eq(key, "HOMEPAGE") {
                            self.homepage(value);
                        } else if str_eq(key, "DOWNLOAD") {
                            self.download(value);
                        } else if str_eq(key, "MD5SUM") {
                            self.md5sum(value);
                        } else if str_eq(key, "DOWNLOAD_x86_64") {
                            self.download_x86_64(value);
                        } else if str_eq(key, "MD5SUM_x86_64") {
                            self.md5sum_x86_64(value);
                        } else if str_eq(key, "REQUIRES") {
                            if self.set_requires(value).is_err() {
                                return Err(SboInfoError);
                            }
                        } else if str_eq(key, "MAINTAINER") {
                            self.maintainer(value);
                        } else if str_eq(key, "EMAIL") {
                            self.email(value);
                        }
                        proof {
                            let s = contents@;
                            assert(!(key@ == "REQUIRES"@ && contains_readme(value@)));
                            assert(self@ == apply_assign(v0, key@, value@));
                            assert(parse_at(v0, s, p as int) == parse_at(
                                apply_assign(v0, key@, value@),
                                s,
                                q as int + 1,
                            ));
                        }
                        p = q + 1;
                    },
                }
            } else {
                p = p + 1;
            }
        }
        Ok(())
    }
}

} // verus!
