//! Documents: sectioning of a rendered manual page, the NAME line, the
//! per-field term statistics, and the weight of a document's type.

use crate::strmap::{
    count, keys, lemma_bump_keeps_positive, lemma_count_le_total, lemma_total_bump,
    positive_counts, total, upsert, StrMap,
};
use crate::text::{
    distinct, english_stem, stem, tokenize_chars, tokens_of, unique_tokens, EnglishStemmer,
};
use crate::unicode::{
    char_uppercase, char_whitespace, chars_of, is_uppercase, is_whitespace, lowercased, str_eq,
    string_of, to_lowercase, views,
};
use vstd::prelude::*;
use vstd::slice::slice_subrange;
use vstd::utf8::encode_utf8;

verus! {

/// The first position at or after `i` whose character is no whitespace.
pub open spec fn skip_whitespace(s: Seq<char>, i: int) -> int
    decreases s.len() - i,
{
    if 0 <= i < s.len() && char_whitespace(s[i]) {
        skip_whitespace(s, i + 1)
    } else {
        i
    }
}

/// The end of `s` without trailing whitespace, never before `lo`.
pub open spec fn back_over_whitespace(s: Seq<char>, lo: int, j: int) -> int
    decreases j,
{
    if 0 <= lo < j <= s.len() && char_whitespace(s[j - 1]) {
        back_over_whitespace(s, lo, j - 1)
    } else {
        j
    }
}

/// `s` without leading and trailing whitespace.
pub open spec fn trimmed(s: Seq<char>) -> Seq<char> {
    let start = skip_whitespace(s, 0);
    s.subrange(start, back_over_whitespace(s, start, s.len() as int))
}

/// The slice without leading and trailing whitespace.
pub fn trim_chars(s: &[char]) -> (t: &[char])
    ensures
        t@ == trimmed(s@),
        t@.len() <= s@.len(),
{
    let mut start: usize = 0;
    while start < s.len() && is_whitespace(s[start])
        invariant
            start <= s@.len(),
            skip_whitespace(s@, 0) == skip_whitespace(s@, start as int),
        decreases s@.len() - start,
    {
        start += 1;
    }
    let mut end: usize = s.len();
    while end > start && is_whitespace(s[end - 1])
        invariant
            start <= end <= s@.len(),
            back_over_whitespace(s@, start as int, s@.len() as int) == back_over_whitespace(
                s@,
                start as int,
                end as int,
            ),
        decreases end,
    {
        end -= 1;
    }
    slice_subrange(s, start, end)
}

/// The part of a document that a line belongs to.
#[derive(Clone, Copy, Debug, PartialEq, Eq, Structural)]
pub enum Section {
    Name,
    Synopsis,
    Body,
}

/// Where the sectioning stands between two lines.
#[derive(Clone, Copy, Debug, PartialEq, Eq, Structural)]
pub struct SectionState {
    pub current: Section,
    pub name_lines_seen: u32,
}

/// Characters that a section header may consist of.
pub open spec fn header_char(c: char) -> bool {
    char_uppercase(c) || char_whitespace(c) || c == '_' || c == '-'
}

/// Whether a trimmed line is a section header: at least two bytes, only
/// header characters, at least one of them uppercase.
pub open spec fn is_header(t: Seq<char>) -> bool {
    &&& encode_utf8(t).len() >= 2
    &&& forall|i: int| 0 <= i < t.len() ==> header_char(#[trigger] t[i])
    &&& exists|i: int| 0 <= i < t.len() && char_uppercase(#[trigger] t[i])
}

/// The section that a header opens.
pub open spec fn header_section(t: Seq<char>) -> Section {
    if t == "NAME"@ {
        Section::Name
    } else if "SYNOPSIS"@.is_prefix_of(t) {
        Section::Synopsis
    } else {
        Section::Body
    }
}

/// The state after `line` and the section that the line counts for. A
/// header resets the count of NAME lines and opens its section. In NAME,
/// blank lines are not counted, and from the second counted line on the
/// lines count for the body.
pub open spec fn advance_spec(st: SectionState, line: Seq<char>) -> (SectionState, Section) {
    let t = trimmed(line);
    if is_header(t) {
        let opened = header_section(t);
        (SectionState { current: opened, name_lines_seen: 0 }, opened)
    } else if st.current == Section::Name {
        if t.len() == 0 {
            (st, Section::Name)
        } else {
            let seen = (st.name_lines_seen + 1) as u32;
            (
                SectionState { current: Section::Name, name_lines_seen: seen },
                if seen > 1 {
                    Section::Body
                } else {
                    Section::Name
                },
            )
        }
    } else {
        (st, st.current)
    }
}

/// Whether the trimmed line `t` is a section header.
pub fn is_header_line(t: &[char]) -> (r: bool)
    ensures
        r == is_header(t@),
{
    let as_string = string_of(t);
    if as_string.as_str().as_bytes().len() < 2 {
        return false;
    }
    let mut any_upper = false;
    let ghost mut upper_at: int = 0;
    let mut i: usize = 0;
    while i < t.len()
        invariant
            i <= t@.len(),
            forall|j: int| 0 <= j < i ==> header_char(#[trigger] t@[j]),
            any_upper ==> 0 <= upper_at < i && char_uppercase(t@[upper_at]),
            !any_upper ==> forall|j: int| 0 <= j < i ==> !char_uppercase(#[trigger] t@[j]),
        decreases t@.len() - i,
    {
        let c = t[i];
        let upper = is_uppercase(c);
        if !(upper || is_whitespace(c) || c == '_' || c == '-') {
            return false;
        }
        if upper {
            any_upper = true;
            proof {
                upper_at = i as int;
            }
        }
        i += 1;
    }
    any_upper
}

/// Whether `s` begins with the characters of `prefix`.
pub fn chars_start_with(s: &[char], prefix: &str) -> (r: bool)
    ensures
        r == prefix@.is_prefix_of(s@),
{
    let p = chars_of(prefix);
    if p.len() > s.len() {
        return false;
    }
    let mut i: usize = 0;
    while i < p.len()
        invariant
            i <= p@.len(),
            p@.len() <= s@.len(),
            p@ == prefix@,
            p@.take(i as int) == s@.take(i as int),
        decreases p@.len() - i,
    {
        if p[i] != s[i] {
            assert(p@[i as int] != s@.subrange(0, p@.len() as int)[i as int]);
            return false;
        }
        assert(p@.take(i + 1) =~= p@.take(i as int).push(p@[i as int]));
        assert(s@.take(i + 1) =~= s@.take(i as int).push(s@[i as int]));
        i += 1;
    }
    assert(p@ =~= p@.take(i as int));
    assert(p@ =~= s@.subrange(0, p@.len() as int));
    true
}

/// Whether `s` ends with the characters of `suffix`.
pub fn chars_end_with(s: &[char], suffix: &str) -> (r: bool)
    ensures
        r == suffix@.is_suffix_of(s@),
{
    let p = chars_of(suffix);
    if p.len() > s.len() {
        return false;
    }
    let shift = s.len() - p.len();
    let mut i: usize = 0;
    while i < p.len()
        invariant
            i <= p@.len(),
            p@.len() <= s@.len(),
            shift == s@.len() - p@.len(),
            s@.len() <= usize::MAX,
            p@ == suffix@,
            forall|j: int| 0 <= j < i ==> p@[j] == s@[shift + j],
        decreases p@.len() - i,
    {
        if p[i] != s[shift + i] {
            assert(p@[i as int] != s@.subrange(shift as int, s@.len() as int)[i as int]);
            return false;
        }
        i += 1;
    }
    assert(p@ =~= s@.subrange(shift as int, s@.len() as int));
    true
}

/// Whether the slice holds exactly the characters of `word`.
pub fn chars_equal(s: &[char], word: &str) -> (r: bool)
    ensures
        r == (s@ == word@),
{
    let p = chars_of(word);
    if p.len() != s.len() {
        return false;
    }
    let r = chars_start_with(s, word);
    proof {
        if r {
            assert(s@ =~= word@);
        }
    }
    r
}

impl SectionState {
    /// The state before the first line: in the body, no NAME line seen.
    pub fn new() -> (st: Self)
        ensures
            st == (SectionState { current: Section::Body, name_lines_seen: 0 }),
    {
        SectionState { current: Section::Body, name_lines_seen: 0 }
    }

    /// Takes in one line and says which section it counts for.
    pub fn advance(&mut self, line: &str) -> (section: Section)
        requires
            old(self).name_lines_seen < u32::MAX,
        ensures
            (*final(self), section) == advance_spec(*old(self), line@),
    {
        let chars = chars_of(line);
        let t = trim_chars(chars.as_slice());
        let header = is_header_line(t);
        self.advance_trimmed(t, header)
    }

    /// `advance` for a line that is already trimmed and classified.
    pub fn advance_trimmed(&mut self, t: &[char], header: bool) -> (section: Section)
        requires
            old(self).name_lines_seen < u32::MAX,
            header == is_header(t@),
        ensures
            final(self).current == (if header {
                header_section(t@)
            } else {
                old(self).current
            }),
            forall|line: Seq<char>|
                trimmed(line) == t@ ==> (*final(self), section) == advance_spec(*old(self), line),
    {
        if header {
            self.name_lines_seen = 0;
            self.current = if chars_equal(t, "NAME") {
                Section::Name
            } else if chars_start_with(t, "SYNOPSIS") {
                Section::Synopsis
            } else {
                Section::Body
            };
            return self.current;
        }
        match self.current {
            Section::Name => {
                if t.len() == 0 {
                    return Section::Name;
                }
                self.name_lines_seen += 1;
                if self.name_lines_seen > 1 {
                    return Section::Body;
                }
                Section::Name
            },
            _ => self.current,
        }
    }
}

/// The position of the first dot at or after `i`, or the length of `s`.
pub open spec fn dot_from(s: Seq<char>, i: int) -> int
    decreases s.len() - i,
{
    if 0 <= i < s.len() && s[i] != '.' {
        dot_from(s, i + 1)
    } else {
        i
    }
}

/// The file name up to its first dot.
pub open spec fn before_dot(fname: Seq<char>) -> Seq<char> {
    fname.take(dot_from(fname, 0))
}

/// The base of a file name: what stands before the first dot, lowercased.
pub open spec fn base_of(fname: Seq<char>) -> Seq<char> {
    lowercased(before_dot(fname))
}

/// The base of a file name: what stands before the first dot, lowercased.
pub fn file_base(fname: &str) -> (base: String)
    ensures
        base@ == base_of(fname@),
{
    let chars = chars_of(fname);
    let mut end: usize = 0;
    while end < chars.len() && chars[end] != '.'
        invariant
            end <= chars@.len(),
            dot_from(chars@, 0) == dot_from(chars@, end as int),
        decreases chars@.len() - end,
    {
        end += 1;
    }
    let head = string_of(slice_subrange(chars.as_slice(), 0, end));
    to_lowercase(head.as_str())
}

/// Whether `base` is one of the commands that everybody looks up.
pub open spec fn vip_command(base: Seq<char>) -> bool {
    base == "ls"@ ||
    base == "cp"@ ||
    base == "mv"@ ||
    base == "rm"@ ||
    base == "mkdir"@ ||
    base == "rmdir"@ ||
    base == "cd"@ ||
    base == "pwd"@ ||
    base == "cat"@ ||
    base == "echo"@ ||
    base == "chmod"@ ||
    base == "chown"@ ||
    base == "tar"@ ||
    base == "grep"@ ||
    base == "find"@ ||
    base == "awk"@ ||
    base == "sed"@ ||
    base == "kill"@ ||
    base == "ps"@ ||
    base == "top"@ ||
    base == "df"@ ||
    base == "du"@ ||
    base == "mount"@ ||
    base == "umount"@ ||
    base == "ip"@ ||
    base == "ping"@ ||
    base == "ssh"@ ||
    base == "bash"@ ||
    base == "sh"@ ||
    base == "sudo"@ ||
    base == "su"@ ||
    base == "apt"@ ||
    base == "pacman"@ ||
    base == "systemctl"@ ||
    base == "journalctl"@ ||
    base == "man"@ ||
    base == "info"@ ||
    base == "less"@ ||
    base == "more"@ ||
    base == "nano"@ ||
    base == "vim"@ ||
    base == "git"@ ||
    base == "curl"@ ||
    base == "wget"@ ||
    base == "rsync"@ ||
    base == "ln"@ ||
    base == "stat"@ ||
    base == "touch"@ ||
    base == "tail"@ ||
    base == "head"@ ||
    base == "sort"@ ||
    base == "uniq"@ ||
    base == "wc"@ ||
    base == "read"@ ||
    base == "gzip"@ ||
    base == "bzip2"@ ||
    base == "unzip"@ ||
    base == "zip"@ ||
    base == "chgrp"@ ||
    base == "date"@ ||
    base == "cal"@ ||
    base == "whoami"@
}

/// Whether `base` is one of the commands that everybody looks up.
pub fn is_vip_command(base: &str) -> (r: bool)
    ensures
        r == vip_command(base@),
{
    str_eq(base, "ls")
        || str_eq(base, "cp")
        || str_eq(base, "mv")
        || str_eq(base, "rm")
        || str_eq(base, "mkdir")
        || str_eq(base, "rmdir")
        || str_eq(base, "cd")
        || str_eq(base, "pwd")
        || str_eq(base, "cat")
        || str_eq(base, "echo")
        || str_eq(base, "chmod")
        || str_eq(base, "chown")
        || str_eq(base, "tar")
        || str_eq(base, "grep")
        || str_eq(base, "find")
        || str_eq(base, "awk")
        || str_eq(base, "sed")
        || str_eq(base, "kill")
        || str_eq(base, "ps")
        || str_eq(base, "top")
        || str_eq(base, "df")
        || str_eq(base, "du")
        || str_eq(base, "mount")
        || str_eq(base, "umount")
        || str_eq(base, "ip")
        || str_eq(base, "ping")
        || str_eq(base, "ssh")
        || str_eq(base, "bash")
        || str_eq(base, "sh")
        || str_eq(base, "sudo")
        || str_eq(base, "su")
        || str_eq(base, "apt")
        || str_eq(base, "pacman")
        || str_eq(base, "systemctl")
        || str_eq(base, "journalctl")
        || str_eq(base, "man")
        || str_eq(base, "info")
        || str_eq(base, "less")
        || str_eq(base, "more")
        || str_eq(base, "nano")
        || str_eq(base, "vim")
        || str_eq(base, "git")
        || str_eq(base, "curl")
        || str_eq(base, "wget")
        || str_eq(base, "rsync")
        || str_eq(base, "ln")
        || str_eq(base, "stat")
        || str_eq(base, "touch")
        || str_eq(base, "tail")
        || str_eq(base, "head")
        || str_eq(base, "sort")
        || str_eq(base, "uniq")
        || str_eq(base, "wc")
        || str_eq(base, "read")
        || str_eq(base, "gzip")
        || str_eq(base, "bzip2")
        || str_eq(base, "unzip")
        || str_eq(base, "zip")
        || str_eq(base, "chgrp")
        || str_eq(base, "date")
        || str_eq(base, "cal")
        || str_eq(base, "whoami")
}

/// The weight of a document's type, as two whole numbers: the score of a
/// document is multiplied by `section_tenths / 10` and then by
/// `vip_factor`.
#[derive(Clone, Copy, Debug, PartialEq, Eq, Structural)]
pub struct DocMultiplier {
    pub section_tenths: u32,
    pub vip_factor: u32,
}

/// The start of the part of `s` behind its last dot before `j`; zero where
/// there is no dot.
pub open spec fn after_last_dot(s: Seq<char>, j: int) -> int
    decreases j,
{
    if 0 < j <= s.len() && s[j - 1] != '.' {
        after_last_dot(s, j - 1)
    } else {
        j
    }
}

/// The value of a decimal digit.
pub open spec fn digit_value(c: char) -> Option<u32> {
    if '0' <= c && c <= '9' {
        Some((c as u32 - '0' as u32) as u32)
    } else {
        None
    }
}

/// The manual section of a file name: the digit that opens the part behind
/// the last dot, if one does.
pub open spec fn section_digit(fname: Seq<char>) -> Option<u32> {
    let start = after_last_dot(fname, fname.len() as int);
    if 0 <= start < fname.len() {
        digit_value(fname[start])
    } else {
        None
    }
}

/// The weight of a manual section, in tenths.
pub open spec fn section_tenths(section: Option<u32>) -> u32 {
    match section {
        Some(d) => if d == 1 {
            40
        } else if d == 8 {
            25
        } else if d == 5 {
            12
        } else if d == 2 || d == 3 {
            8
        } else if d == 4 || d == 6 || d == 7 {
            6
        } else {
            8
        },
        None => 8,
    }
}

/// The weight of a document's type. Files whose names end in `const`,
/// `type` or `head` weigh a tenth; every other file weighs what its section
/// weighs, five times that for a well-known command.
pub open spec fn doc_multiplier(fname: Seq<char>) -> DocMultiplier {
    if "const"@.is_suffix_of(fname) || "type"@.is_suffix_of(fname) || "head"@.is_suffix_of(fname) {
        DocMultiplier { section_tenths: 1, vip_factor: 1 }
    } else {
        DocMultiplier {
            section_tenths: section_tenths(section_digit(fname)),
            vip_factor: if vip_command(base_of(fname)) {
                5
            } else {
                1
            },
        }
    }
}

/// The weight of a document's type, from its file name.
pub fn doc_type_multiplier(fname: &str) -> (m: DocMultiplier)
    ensures
        m == doc_multiplier(fname@),
        m.section_tenths == 1 <==> ("const"@.is_suffix_of(fname@) || "type"@.is_suffix_of(fname@)
            || "head"@.is_suffix_of(fname@)),
        m.section_tenths == 1 ==> m.vip_factor == 1,
{
    let chars = chars_of(fname);
    let s = chars.as_slice();
    if chars_end_with(s, "const") || chars_end_with(s, "type") || chars_end_with(s, "head") {
        return DocMultiplier { section_tenths: 1, vip_factor: 1 };
    }
    let mut start: usize = s.len();
    while start > 0 && s[start - 1] != '.'
        invariant
            start <= s@.len(),
            after_last_dot(s@, s@.len() as int) == after_last_dot(s@, start as int),
        decreases start,
    {
        start -= 1;
    }
    let mut tenths: u32 = 8;
    if start < s.len() {
        let c = s[start];
        if c >= '0' && c <= '9' {
            let d = c as u32 - '0' as u32;
            if d == 1 {
                tenths = 40;
            } else if d == 8 {
                tenths = 25;
            } else if d == 5 {
                tenths = 12;
            } else if d == 4 || d == 6 || d == 7 {
                tenths = 6;
            }
        }
    }
    let base = file_base(fname);
    let vip: u32 = if is_vip_command(base.as_str()) {
        5
    } else {
        1
    };
    DocMultiplier { section_tenths: tenths, vip_factor: vip }
}

/// The first position at or after `i` at which `pat` stands in `s`, or -1.
pub open spec fn find_from(s: Seq<char>, pat: Seq<char>, i: int) -> int
    decreases s.len() - i + 1,
{
    if i < 0 || i + pat.len() > s.len() {
        -1
    } else if s.subrange(i, i + pat.len()) == pat {
        i
    } else {
        find_from(s, pat, i + 1)
    }
}

/// A hyphen between two spaces.
pub open spec fn spaced_hyphen() -> Seq<char> {
    seq![' ', '-', ' ']
}

/// An en dash between two spaces.
pub open spec fn spaced_en_dash() -> Seq<char> {
    seq![' ', '\u{2013}', ' ']
}

/// Where the NAME line parts into names and description: at the first
/// spaced hyphen, else at the first spaced en dash, else nowhere (-1).
pub open spec fn dash_position(line: Seq<char>) -> int {
    let hyphen = find_from(line, spaced_hyphen(), 0);
    if hyphen >= 0 {
        hyphen
    } else {
        find_from(line, spaced_en_dash(), 0)
    }
}

/// Characters that part one command name from the next.
pub open spec fn name_separator(c: char) -> bool {
    c == ',' || c == ';'
}

/// The pieces of `s` between commas and semicolons, empty pieces included.
pub open spec fn split_names(s: Seq<char>) -> Seq<Seq<char>>
    decreases s.len(),
{
    if s.len() == 0 {
        seq![Seq::<char>::empty()]
    } else {
        let before = split_names(s.drop_last());
        if name_separator(s.last()) {
            before.push(Seq::<char>::empty())
        } else {
            before.drop_last().push(before.last().push(s.last()))
        }
    }
}

/// Trimming and lowercasing, as a function.
pub open spec fn clean_name_fn() -> spec_fn(Seq<char>) -> Seq<char> {
    |p: Seq<char>| lowercased(trimmed(p))
}

/// Being not empty, as a predicate.
pub open spec fn non_empty_fn() -> spec_fn(Seq<char>) -> bool {
    |w: Seq<char>| w.len() > 0
}

/// The names among the pieces: each trimmed and lowercased, those that are
/// then empty left out.
pub open spec fn clean_names(pieces: Seq<Seq<char>>) -> Seq<Seq<char>> {
    pieces.map_values(clean_name_fn()).filter(non_empty_fn())
}

/// The command names that a text lists.
pub open spec fn names_of(part: Seq<char>) -> Seq<Seq<char>> {
    clean_names(split_names(part))
}

/// Characters that stand between the names and the description.
pub open spec fn dash_char(c: char) -> bool {
    c == ' ' || c == '-' || c == '\u{2013}'
}

/// The first position at or after `i` whose character is no dash
/// character.
pub open spec fn skip_dashes(s: Seq<char>, i: int) -> int
    decreases s.len() - i,
{
    if 0 <= i < s.len() && dash_char(s[i]) {
        skip_dashes(s, i + 1)
    } else {
        i
    }
}

/// The description of a NAME line that parts at `pos`: what follows the
/// dashes and spaces there, trimmed.
pub open spec fn description_from(line: Seq<char>, pos: int) -> Seq<char> {
    trimmed(line.subrange(skip_dashes(line, pos), line.len() as int))
}

/// The command names and the description of a NAME line. Without a spaced
/// dash the whole line lists names and the description is empty.
pub open spec fn name_line(line: Seq<char>) -> (Seq<Seq<char>>, Seq<char>) {
    let pos = dash_position(line);
    if pos >= 0 {
        (names_of(line.take(pos)), description_from(line, pos))
    } else {
        (names_of(line), Seq::empty())
    }
}

/// One more piece adds its name where that is not empty.
pub proof fn lemma_clean_names_push(pieces: Seq<Seq<char>>, p: Seq<char>)
    ensures
        clean_names(pieces.push(p)) == if lowercased(trimmed(p)).len() > 0 {
            clean_names(pieces).push(lowercased(trimmed(p)))
        } else {
            clean_names(pieces)
        },
{
    let cleaned = pieces.map_values(clean_name_fn());
    assert(pieces.push(p).map_values(clean_name_fn()) =~= cleaned.push(lowercased(trimmed(p))));
    cleaned.lemma_filter_push(lowercased(trimmed(p)), non_empty_fn());
}

/// The position of a space, `mark` and a space in `s`.
fn find_spaced(s: &[char], mark: char) -> (r: Option<usize>)
    ensures
        match r {
            Some(i) => find_from(s@, seq![' ', mark, ' '], 0) == i && i + 3 <= s@.len(),
            None => find_from(s@, seq![' ', mark, ' '], 0) == -1,
        },
{
    let ghost pat = seq![' ', mark, ' '];
    let n = s.len();
    if n < 3 {
        return None;
    }
    let mut i: usize = 0;
    while i <= n - 3
        invariant
            i <= n - 2,
            n == s@.len(),
            n >= 3,
            pat == seq![' ', mark, ' '],
            find_from(s@, pat, 0) == find_from(s@, pat, i as int),
        decreases n - i,
    {
        if s[i] == ' ' && s[i + 1] == mark && s[i + 2] == ' ' {
            assert(s@.subrange(i as int, i + 3) =~= pat);
            return Some(i);
        }
        assert(s@.subrange(i as int, i + 3)[0] == s@[i as int]);
        assert(s@.subrange(i as int, i + 3)[1] == s@[i + 1]);
        assert(s@.subrange(i as int, i + 3)[2] == s@[i + 2]);
        i += 1;
    }
    None
}

/// Appends the name that the piece gives, if it is not empty.
fn push_name(piece: &[char], names: &mut Vec<String>)
    ensures
        views(final(names)@) == if lowercased(trimmed(piece@)).len() > 0 {
            views(old(names)@).push(lowercased(trimmed(piece@)))
        } else {
            views(old(names)@)
        },
{
    let t = trim_chars(piece);
    let raw = string_of(t);
    let name = to_lowercase(raw.as_str());
    if !name.as_str().is_empty() {
        names.push(name);
        assert(views(names@) =~= views(old(names)@).push(lowercased(trimmed(piece@))));
    } else {
        assert(views(names@) =~= views(old(names)@));
    }
}

/// The command names that a text lists.
fn collect_names(part: &[char]) -> (names: Vec<String>)
    ensures
        views(names@) == names_of(part@),
{
    let mut names: Vec<String> = Vec::new();
    let ghost mut done: Seq<Seq<char>> = Seq::empty();
    let mut start: usize = 0;
    let mut i: usize = 0;
    proof {
        reveal(Seq::filter);
        assert(Seq::<Seq<char>>::empty().map_values(clean_name_fn()) =~= Seq::empty());
        assert(views(names@) =~= clean_names(done));
        assert(part@.take(0) =~= Seq::<char>::empty());
        assert(split_names(part@.take(0)) =~= done.push(part@.subrange(0, 0)));
    }
    while i < part.len()
        invariant
            start <= i <= part@.len(),
            split_names(part@.take(i as int)) == done.push(part@.subrange(start as int, i as int)),
            views(names@) == clean_names(done),
        decreases part@.len() - i,
    {
        let c = part[i];
        proof {
            assert(part@.take(i + 1).drop_last() =~= part@.take(i as int));
            assert(part@.take(i + 1).last() == c);
        }
        if c == ',' || c == ';' {
            let piece = slice_subrange(part, start, i);
            push_name(piece, &mut names);
            proof {
                lemma_clean_names_push(done, piece@);
                done = done.push(piece@);
            }
            start = i + 1;
            assert(part@.subrange(start as int, i + 1) =~= Seq::<char>::empty());
            assert(split_names(part@.take(i + 1)) == split_names(part@.take(i as int)).push(
                Seq::<char>::empty(),
            ));
        } else {
            assert(part@.subrange(start as int, i + 1) =~= part@.subrange(
                start as int,
                i as int,
            ).push(c));
            assert(split_names(part@.take(i + 1)) =~= done.push(
                part@.subrange(start as int, i + 1),
            ));
        }
        i += 1;
    }
    let piece = slice_subrange(part, start, i);
    push_name(piece, &mut names);
    proof {
        lemma_clean_names_push(done, piece@);
        assert(part@.take(i as int) =~= part@);
    }
    names
}

/// `parse_name_line` on the characters of a line.
pub fn parse_name_chars(line: &[char]) -> (r: (Vec<String>, String))
    ensures
        (views(r.0@), r.1@) == name_line(line@),
        r.1@.len() <= line@.len(),
{
    let found = match find_spaced(line, '-') {
        Some(pos) => Some(pos),
        None => find_spaced(line, '\u{2013}'),
    };
    match found {
        Some(pos) => {
            let names = collect_names(slice_subrange(line, 0, pos));
            let mut from: usize = pos;
            while from < line.len() && (line[from] == ' ' || line[from] == '-' || line[from]
                == '\u{2013}')
                invariant
                    pos <= from <= line@.len(),
                    skip_dashes(line@, pos as int) == skip_dashes(line@, from as int),
                decreases line@.len() - from,
            {
                from += 1;
            }
            let desc = string_of(trim_chars(slice_subrange(line, from, line.len())));
            assert(line@.subrange(0, pos as int) =~= line@.take(pos as int));
            (names, desc)
        },
        None => {
            let names = collect_names(line);
            let desc = String::new();
            (names, desc)
        },
    }
}

/// Parts a NAME line into the command names it lists and its description.
pub fn parse_name_line(line: &str) -> (r: (Vec<String>, String))
    ensures
        (views(r.0@), r.1@) == name_line(line@),
{
    let chars = chars_of(line);
    parse_name_chars(chars.as_slice())
}

/// `tf` after the first `n` tokens were counted into it.
pub open spec fn count_tokens(tf: Seq<(Seq<char>, u32)>, tokens: Seq<Seq<char>>, n: int) -> Seq<
    (Seq<char>, u32),
>
    decreases n,
{
    if n <= 0 {
        tf
    } else {
        let before = count_tokens(tf, tokens, n - 1);
        upsert(before, tokens[n - 1], (count(before, tokens[n - 1]) + 1) as u32)
    }
}

/// How often `t` stands among the first `n` tokens.
pub open spec fn occurrences(tokens: Seq<Seq<char>>, n: int, t: Seq<char>) -> nat
    decreases n,
{
    if n <= 0 {
        0
    } else {
        occurrences(tokens, n - 1, t) + if tokens[n - 1] == t {
            1nat
        } else {
            0nat
        }
    }
}

/// Counting tokens raises the count of each term by the number of its
/// occurrences, as long as that fits in 32 bits.
pub proof fn lemma_count_tokens(
    tf: Seq<(Seq<char>, u32)>,
    tokens: Seq<Seq<char>>,
    n: int,
    t: Seq<char>,
)
    requires
        crate::strmap::distinct_keys(tf),
        0 <= n <= tokens.len(),
        count(tf, t) + occurrences(tokens, n, t) <= u32::MAX,
    ensures
        crate::strmap::distinct_keys(count_tokens(tf, tokens, n)),
        count(count_tokens(tf, tokens, n), t) == count(tf, t) + occurrences(tokens, n, t),
    decreases n,
{
    if n > 0 {
        lemma_count_tokens(tf, tokens, n - 1, t);
        let before = count_tokens(tf, tokens, n - 1);
        crate::strmap::lemma_upsert(
            before,
            tokens[n - 1],
            (count(before, tokens[n - 1]) + 1) as u32,
        );
    }
}

/// Counts the tokens into the term frequencies of a field and adds their
/// number to the field's length.
fn count_into(tf: &mut StrMap<u32>, len: &mut u32, tokens: &Vec<String>)
    requires
        total(old(tf)@) == *old(len),
        positive_counts(old(tf)@),
        *old(len) + tokens@.len() <= u32::MAX,
    ensures
        final(tf)@ == count_tokens(old(tf)@, views(tokens@), tokens@.len() as int),
        *final(len) == *old(len) + tokens@.len(),
        total(final(tf)@) == *final(len),
        positive_counts(final(tf)@),
{
    let mut i: usize = 0;
    while i < tokens.len()
        invariant
            i <= tokens@.len(),
            *old(len) + tokens@.len() <= u32::MAX,
            tf@ == count_tokens(old(tf)@, views(tokens@), i as int),
            *len == *old(len) + i,
            total(tf@) == *len,
            positive_counts(tf@),
        decreases tokens@.len() - i,
    {
        tf.keys_distinct();
        proof {
            lemma_count_le_total(tf@, tokens@[i as int]@);
            lemma_total_bump(tf@, tokens@[i as int]@);
            lemma_bump_keeps_positive(tf@, tokens@[i as int]@);
        }
        tf.bump(tokens[i].as_str());
        *len = *len + 1;
        i += 1;
    }
}

/// What the scan of a page has gathered between two lines.
pub struct Scan {
    pub state: SectionState,
    pub found_name: bool,
    pub cmd_name: Seq<char>,
    pub desc_raw: Seq<char>,
    pub desc_tf: Seq<(Seq<char>, u32)>,
    pub desc_len: nat,
    pub synopsis_tf: Seq<(Seq<char>, u32)>,
    pub synopsis_len: nat,
    pub body_tf: Seq<(Seq<char>, u32)>,
    pub body_len: nat,
}

/// The scan before the first line.
pub open spec fn scan_start() -> Scan {
    Scan {
        state: SectionState { current: Section::Body, name_lines_seen: 0 },
        found_name: false,
        cmd_name: Seq::empty(),
        desc_raw: Seq::empty(),
        desc_tf: Seq::empty(),
        desc_len: 0,
        synopsis_tf: Seq::empty(),
        synopsis_len: 0,
        body_tf: Seq::empty(),
        body_len: 0,
    }
}

/// The scan after one more line. A header only moves the section. The first
/// counted line of the first NAME section gives the command name and the
/// description, whose tokens are the description field. Every other line is
/// tokenised into the synopsis or, in NAME and in the body, into the body.
pub open spec fn scan_line(p: Scan, line: Seq<char>) -> Scan {
    let t = trimmed(line);
    let (st, section) = advance_spec(p.state, line);
    if is_header(t) {
        Scan { state: st, ..p }
    } else if section == Section::Name && t.len() > 0 && st.name_lines_seen == 1 && !p.found_name {
        let (names, desc) = name_line(t);
        let tokens = tokens_of(desc);
        Scan {
            state: st,
            found_name: true,
            cmd_name: if names.len() > 0 {
                english_stem(names[0])
            } else {
                p.cmd_name
            },
            desc_raw: desc,
            desc_tf: count_tokens(p.desc_tf, tokens, tokens.len() as int),
            desc_len: p.desc_len + tokens.len(),
            ..p
        }
    } else {
        let tokens = tokens_of(line);
        if section == Section::Synopsis {
            Scan {
                state: st,
                synopsis_tf: count_tokens(p.synopsis_tf, tokens, tokens.len() as int),
                synopsis_len: p.synopsis_len + tokens.len(),
                ..p
            }
        } else {
            Scan {
                state: st,
                body_tf: count_tokens(p.body_tf, tokens, tokens.len() as int),
                body_len: p.body_len + tokens.len(),
                ..p
            }
        }
    }
}

/// The scan after all of `lines`.
pub open spec fn scan_lines(lines: Seq<Seq<char>>) -> Scan
    decreases lines.len(),
{
    if lines.len() == 0 {
        scan_start()
    } else {
        scan_line(scan_lines(lines.drop_last()), lines.last())
    }
}

/// The pieces of `s` between line feeds, empty pieces included.
pub open spec fn split_lines(s: Seq<char>) -> Seq<Seq<char>>
    decreases s.len(),
{
    if s.len() == 0 {
        seq![Seq::<char>::empty()]
    } else {
        let before = split_lines(s.drop_last());
        if s.last() == '\n' {
            before.push(Seq::<char>::empty())
        } else {
            before.drop_last().push(before.last().push(s.last()))
        }
    }
}

/// A line without the carriage return that ends it, if one does.
pub open spec fn strip_cr(l: Seq<char>) -> Seq<char> {
    if l.len() > 0 && l.last() == '\r' {
        l.drop_last()
    } else {
        l
    }
}

/// `strip_cr`, as a function.
pub open spec fn strip_cr_fn() -> spec_fn(Seq<char>) -> Seq<char> {
    |l: Seq<char>| strip_cr(l)
}

/// The lines of a text. A line ends with a line feed, and a carriage return
/// just before the line feed is not part of the line. What follows the last
/// line feed is a line of its own unless it is empty.
pub open spec fn lines_of(s: Seq<char>) -> Seq<Seq<char>> {
    let raw = split_lines(s);
    let ended = raw.drop_last().map_values(strip_cr_fn());
    if raw.last().len() > 0 {
        ended.push(raw.last())
    } else {
        ended
    }
}

/// The fields of a parsed document.
pub struct DocFields {
    pub fname: String,
    pub cmd_name: String,
    pub name_desc_raw: String,
    pub name_desc_tf: StrMap<u32>,
    pub name_desc_len: u32,
    pub synopsis_tf: StrMap<u32>,
    pub synopsis_len: u32,
    pub body_tf: StrMap<u32>,
    pub body_len: u32,
}

/// A document as plain values.
pub struct DocModel {
    pub fname: Seq<char>,
    pub cmd_name: Seq<char>,
    pub name_desc_raw: Seq<char>,
    pub name_desc_tf: Seq<(Seq<char>, u32)>,
    pub name_desc_len: nat,
    pub synopsis_tf: Seq<(Seq<char>, u32)>,
    pub synopsis_len: nat,
    pub body_tf: Seq<(Seq<char>, u32)>,
    pub body_len: nat,
}

impl DocFields {
    /// What holds of every parsed document: it has at least one token, each
    /// field's length is the sum of its term frequencies, and each term
    /// that is listed occurs at least once.
    pub open spec fn wf(&self) -> bool {
        &&& self.name_desc_len + self.synopsis_len + self.body_len > 0
        &&& total(self.name_desc_tf@) == self.name_desc_len
        &&& total(self.synopsis_tf@) == self.synopsis_len
        &&& total(self.body_tf@) == self.body_len
        &&& positive_counts(self.name_desc_tf@)
        &&& positive_counts(self.synopsis_tf@)
        &&& positive_counts(self.body_tf@)
    }
}

impl View for DocFields {
    type V = DocModel;

    open spec fn view(&self) -> DocModel {
        DocModel {
            fname: self.fname@,
            cmd_name: self.cmd_name@,
            name_desc_raw: self.name_desc_raw@,
            name_desc_tf: self.name_desc_tf@,
            name_desc_len: self.name_desc_len as nat,
            synopsis_tf: self.synopsis_tf@,
            synopsis_len: self.synopsis_len as nat,
            body_tf: self.body_tf@,
            body_len: self.body_len as nat,
        }
    }
}

/// The command name of a document: the one that the NAME line gave, else
/// the stem of the file's base where that has more than one byte, else
/// none.
pub open spec fn final_cmd_name(scanned: Seq<char>, fname: Seq<char>) -> Seq<char> {
    if scanned.len() > 0 {
        scanned
    } else if encode_utf8(base_of(fname)).len() > 1 {
        english_stem(base_of(fname))
    } else {
        Seq::empty()
    }
}

/// The document that a scan amounts to; none where no field has a token.
pub open spec fn doc_of_scan(p: Scan, fname: Seq<char>) -> Option<DocModel> {
    if p.desc_len + p.synopsis_len + p.body_len == 0 {
        None
    } else {
        Some(
            DocModel {
                fname,
                cmd_name: final_cmd_name(p.cmd_name, fname),
                name_desc_raw: p.desc_raw,
                name_desc_tf: p.desc_tf,
                name_desc_len: p.desc_len,
                synopsis_tf: p.synopsis_tf,
                synopsis_len: p.synopsis_len,
                body_tf: p.body_tf,
                body_len: p.body_len,
            },
        )
    }
}

/// The document that a rendered page gives.
pub open spec fn parsed_doc(content: Seq<char>, fname: Seq<char>) -> Option<DocModel> {
    doc_of_scan(scan_lines(lines_of(content)), fname)
}

/// A scan in progress.
pub struct DocScan {
    pub state: SectionState,
    pub found_name: bool,
    pub cmd_name: String,
    pub name_desc_raw: String,
    pub name_desc_tf: StrMap<u32>,
    pub name_desc_len: u32,
    pub synopsis_tf: StrMap<u32>,
    pub synopsis_len: u32,
    pub body_tf: StrMap<u32>,
    pub body_len: u32,
}

impl View for DocScan {
    type V = Scan;

    open spec fn view(&self) -> Scan {
        Scan {
            state: self.state,
            found_name: self.found_name,
            cmd_name: self.cmd_name@,
            desc_raw: self.name_desc_raw@,
            desc_tf: self.name_desc_tf@,
            desc_len: self.name_desc_len as nat,
            synopsis_tf: self.synopsis_tf@,
            synopsis_len: self.synopsis_len as nat,
            body_tf: self.body_tf@,
            body_len: self.body_len as nat,
        }
    }
}

impl DocScan {
    /// Each field's length is the sum of its term frequencies, and each
    /// term that is listed occurs at least once.
    pub open spec fn wf(&self) -> bool {
        &&& total(self.name_desc_tf@) == self.name_desc_len
        &&& total(self.synopsis_tf@) == self.synopsis_len
        &&& total(self.body_tf@) == self.body_len
        &&& positive_counts(self.name_desc_tf@)
        &&& positive_counts(self.synopsis_tf@)
        &&& positive_counts(self.body_tf@)
    }

    /// The number of tokens counted so far.
    pub open spec fn tokens(&self) -> nat {
        (self.name_desc_len + self.synopsis_len + self.body_len) as nat
    }

    /// A scan that has seen no line.
    pub fn new() -> (scan: Self)
        ensures
            scan@ == scan_start(),
            scan.wf(),
            scan.tokens() == 0,
    {
        DocScan {
            state: SectionState::new(),
            found_name: false,
            cmd_name: String::new(),
            name_desc_raw: String::new(),
            name_desc_tf: StrMap::new(),
            name_desc_len: 0,
            synopsis_tf: StrMap::new(),
            synopsis_len: 0,
            body_tf: StrMap::new(),
            body_len: 0,
        }
    }

    /// Takes in one line.
    pub fn feed(&mut self, line: &[char], stemmer: &EnglishStemmer)
        requires
            old(self).wf(),
            old(self).state.name_lines_seen < u32::MAX,
            old(self).tokens() + line@.len() + 1 <= u32::MAX,
        ensures
            final(self)@ == scan_line(old(self)@, line@),
            final(self).wf(),
            final(self).tokens() <= old(self).tokens() + line@.len() + 1,
            final(self).state.name_lines_seen <= old(self).state.name_lines_seen + 1,
    {
        let t = trim_chars(line);
        let header = is_header_line(t);
        let ghost before = self.state;
        let section = self.state.advance_trimmed(t, header);
        assert((self.state, section) == advance_spec(before, line@));
        if header {
            return ;
        }
        let is_name_line = match section {
            Section::Name => t.len() > 0 && self.state.name_lines_seen == 1 && !self.found_name,
            _ => false,
        };
        if is_name_line {
            let (names, desc) = parse_name_chars(t);
            if names.len() > 0 {
                self.cmd_name = stem(stemmer, names[0].as_str());
            }
            let desc_chars = chars_of(desc.as_str());
            let tokens = tokenize_chars(desc_chars.as_slice(), stemmer);
            self.name_desc_raw = desc;
            count_into(&mut self.name_desc_tf, &mut self.name_desc_len, &tokens);
            self.found_name = true;
            assert(views(names@).len() == names@.len());
            return ;
        }
        let tokens = tokenize_chars(line, stemmer);
        match section {
            Section::Synopsis => {
                count_into(&mut self.synopsis_tf, &mut self.synopsis_len, &tokens);
            },
            _ => {
                count_into(&mut self.body_tf, &mut self.body_len, &tokens);
            },
        }
    }

    /// The document that the scan amounts to; none where no field has a
    /// token.
    pub fn finish(self, fname: &str, stemmer: &EnglishStemmer) -> (doc: Option<DocFields>)
        requires
            self.wf(),
            self.tokens() <= u32::MAX,
        ensures
            match doc {
                Some(d) => doc_of_scan(self@, fname@) == Some(d@) && d.wf(),
                None => doc_of_scan(self@, fname@).is_none(),
            },
    {
        let ghost scanned = self@;
        let mut cmd_name = self.cmd_name;
        if cmd_name.as_str().is_empty() {
            let base = file_base(fname);
            if base.as_str().as_bytes().len() > 1 {
                cmd_name = stem(stemmer, base.as_str());
            }
        }
        assert(cmd_name@ == final_cmd_name(scanned.cmd_name, fname@));
        if self.name_desc_len + self.synopsis_len + self.body_len == 0 {
            return None;
        }
        assert(scanned.desc_len + scanned.synopsis_len + scanned.body_len != 0);
        Some(
            DocFields {
                fname: fname.to_owned(),
                cmd_name,
                name_desc_raw: self.name_desc_raw,
                name_desc_tf: self.name_desc_tf,
                name_desc_len: self.name_desc_len,
                synopsis_tf: self.synopsis_tf,
                synopsis_len: self.synopsis_len,
                body_tf: self.body_tf,
                body_len: self.body_len,
            },
        )
    }
}

/// Parses a rendered manual page into the fields of a document. Gives
/// none where the page has no token at all.
pub fn parse_doc(content: &str, fname: &str, stemmer: &EnglishStemmer) -> (doc: Option<DocFields>)
    requires
        content@.len() < u32::MAX,
    ensures
        match doc {
            Some(d) => parsed_doc(content@, fname@) == Some(d@) && d.wf(),
            None => parsed_doc(content@, fname@).is_none(),
        },
{
    let chars = chars_of(content);
    let s = chars.as_slice();
    let n = s.len();
    let mut scan = DocScan::new();
    let ghost mut raw: Seq<Seq<char>> = Seq::empty();
    let mut start: usize = 0;
    let mut i: usize = 0;
    proof {
        assert(s@.take(0) =~= Seq::<char>::empty());
        assert(split_lines(s@.take(0)) =~= raw.push(s@.subrange(0, 0)));
        assert(raw.map_values(strip_cr_fn()) =~= Seq::<Seq<char>>::empty());
    }
    while i < n
        invariant
            start <= i <= n,
            n == s@.len(),
            n < u32::MAX,
            split_lines(s@.take(i as int)) == raw.push(s@.subrange(start as int, i as int)),
            scan@ == scan_lines(raw.map_values(strip_cr_fn())),
            scan.wf(),
            scan.tokens() <= start,
            scan.state.name_lines_seen <= start,
        decreases n - i,
    {
        let c = s[i];
        proof {
            assert(s@.take(i + 1).drop_last() =~= s@.take(i as int));
            assert(s@.take(i + 1).last() == c);
        }
        if c == '\n' {
            let ghost piece = s@.subrange(start as int, i as int);
            let mut end: usize = i;
            if end > start && s[end - 1] == '\r' {
                end -= 1;
            }
            let line = slice_subrange(s, start, end);
            assert(line@ =~= strip_cr(piece));
            scan.feed(line, stemmer);
            proof {
                let lines = raw.map_values(strip_cr_fn());
                assert(raw.push(piece).map_values(strip_cr_fn()) =~= lines.push(strip_cr(piece)));
                assert(lines.push(strip_cr(piece)).drop_last() =~= lines);
                raw = raw.push(piece);
            }
            start = i + 1;
            assert(s@.subrange(start as int, i + 1) =~= Seq::<char>::empty());
            assert(split_lines(s@.take(i + 1)) == split_lines(s@.take(i as int)).push(
                Seq::<char>::empty(),
            ));
        } else {
            assert(s@.subrange(start as int, i + 1) =~= s@.subrange(start as int, i as int).push(
                c,
            ));
            assert(split_lines(s@.take(i + 1)) =~= raw.push(s@.subrange(start as int, i + 1)));
        }
        i += 1;
    }
    proof {
        assert(s@.take(n as int) =~= s@);
        assert(raw.push(s@.subrange(start as int, n as int)).drop_last() =~= raw);
    }
    if start < n {
        let line = slice_subrange(s, start, n);
        scan.feed(line, stemmer);
        proof {
            let lines = raw.map_values(strip_cr_fn());
            assert(lines.push(line@).drop_last() =~= lines);
        }
    }
    scan.finish(fname, stemmer)
}

/// The command name as a list: itself where it is not empty.
pub open spec fn cmd_name_term(cmd_name: Seq<char>) -> Seq<Seq<char>> {
    if cmd_name.len() > 0 {
        seq![cmd_name]
    } else {
        Seq::empty()
    }
}

/// The terms of a document: those of its description, synopsis and body
/// and its command name, each once, in the order in which they first come.
pub open spec fn doc_terms_of(d: DocModel) -> Seq<Seq<char>> {
    distinct(
        keys(d.name_desc_tf) + keys(d.synopsis_tf) + keys(d.body_tf) + cmd_name_term(d.cmd_name),
    )
}

/// Appends clones of the keys of `map` to `out`.
fn push_keys(map: &StrMap<u32>, out: &mut Vec<String>)
    ensures
        views(final(out)@) == views(old(out)@) + keys(map@),
{
    let mut i: usize = 0;
    assert(views(out@) =~= views(old(out)@) + keys(map@).take(0));
    while i < map.len()
        invariant
            i <= map@.len(),
            views(out@) == views(old(out)@) + keys(map@).take(i as int),
        decreases map@.len() - i,
    {
        let ghost so_far = views(out@);
        let k = map.key(i).clone();
        assert(k@ == keys(map@)[i as int]);
        out.push(k);
        assert(views(out@) =~= so_far.push(k@));
        assert(keys(map@).take(i + 1) =~= keys(map@).take(i as int).push(k@));
        assert(views(out@) =~= views(old(out)@) + keys(map@).take(i + 1));
        i += 1;
    }
    assert(keys(map@).take(i as int) =~= keys(map@));
}

/// The terms of a document, each once.
pub fn doc_terms(doc: &DocFields) -> (terms: Vec<String>)
    ensures
        views(terms@) == doc_terms_of(doc@),
        views(terms@).no_duplicates(),
{
    let mut all: Vec<String> = Vec::new();
    assert(views(all@) =~= Seq::<Seq<char>>::empty());
    push_keys(&doc.name_desc_tf, &mut all);
    push_keys(&doc.synopsis_tf, &mut all);
    push_keys(&doc.body_tf, &mut all);
    let ghost before = views(all@);
    if !doc.cmd_name.as_str().is_empty() {
        all.push(doc.cmd_name.clone());
        assert(views(all@) =~= before + cmd_name_term(doc.cmd_name@));
    } else {
        assert(views(all@) =~= before + cmd_name_term(doc.cmd_name@));
    }
    assert(views(all@) =~= keys(doc@.name_desc_tf) + keys(doc@.synopsis_tf) + keys(doc@.body_tf)
        + cmd_name_term(doc@.cmd_name));
    unique_tokens(&all)
}

} // verus!
