//! What the package manager says of packages, user ids and files.
use crate::bytes::{next_of, occurs_at};
use crate::text::{
    chars_of, contains, contains_text, dec_text, fields, fields_of, find_text, has_prefix, is_solid,
    is_white_space, law_fields_are_parted_by_separators, law_lines_end_with_a_line_feed,
    law_numbers_are_read_back, law_white_space_at_the_ends_is_removed,
    law_words_are_parted_by_white_space, lemma_dec_digits, lemma_first_word,
    lemma_trimming_keeps_the_first, lemma_trimming_leaves_words, lines, lines_of, number_of,
    parse_number, part_of, same_text, starts_with, string_of, string_texts, strip_prefix, texts,
    trim, trim_of, words, words_of,
};
use vstd::prelude::*;
use vstd::string::StringExecFns;

verus! {

/// A user id in base 10.
pub open spec fn uid_of(s: Seq<char>) -> Option<u32> {
    match number_of(s, 10, u32::MAX as int) {
        Ok(v) => Some(v as u32),
        Err(_) => None,
    }
}

fn parse_uid(s: &[char]) -> (r: Option<u32>)
    ensures
        r == uid_of(s@),
{
    match parse_number(s, 10, u32::MAX as u64) {
        Ok(v) => Some(v as u32),
        Err(_) => None,
    }
}

// ---------------------------------------------------------------------------
// packages.list
// ---------------------------------------------------------------------------

/// The package and the user id in a line of `packages.list`: its first two words. An empty
/// line and a comment have none.
pub open spec fn listed(line: Seq<char>) -> Option<(Seq<char>, Option<u32>)> {
    let s = trim_of(line);
    let w = words_of(s);
    if s.len() == 0 || s[0] == '#' || w.len() < 2 {
        None
    } else {
        Some((w[0], uid_of(w[1])))
    }
}

/// The package and the user id in a line of `cmd package list packages -U`: the last word
/// behind `package:` and the last number behind `uid:`.
pub open spec fn printed_parts(w: Seq<Seq<char>>, n: nat) -> (Option<Seq<char>>, Option<u32>)
    decreases n,
{
    if n == 0 {
        (None, None)
    } else {
        let (name, uid) = printed_parts(w, (n - 1) as nat);
        let part = w[n - 1];
        if has_prefix(part, "package:"@) {
            (Some(part.skip("package:"@.len() as int)), uid)
        } else if has_prefix(part, "uid:"@) {
            (name, uid_of(part.skip("uid:"@.len() as int)))
        } else {
            (name, uid)
        }
    }
}

/// The package and the user id in a line of `cmd package list packages -U`. A line that
/// does not start with `package:` or does not hold `uid:` has none.
pub open spec fn printed(line: Seq<char>) -> Option<(Seq<char>, Option<u32>)> {
    let s = trim_of(line);
    let w = words_of(s);
    if !has_prefix(s, "package:"@) || !contains_text(s, "uid:"@) {
        None
    } else {
        match printed_parts(w, w.len()) {
            (Some(name), uid) => Some((name, uid)),
            (None, _) => None,
        }
    }
}

/// The package and the user id in a line of either list.
pub open spec fn entry_of(line: Seq<char>, from_cmd: bool) -> Option<(Seq<char>, Option<u32>)> {
    if from_cmd {
        printed(line)
    } else {
        listed(line)
    }
}

/// The user id of the first line, from number `i` on, that gives one for the package.
pub open spec fn uid_in(all: Seq<Seq<char>>, i: int, from_cmd: bool, pkg: Seq<char>) -> Option<u32>
    decreases all.len() - i,
{
    if i >= all.len() {
        None
    } else {
        match entry_of(all[i], from_cmd) {
            Some((name, Some(uid))) => if name == pkg {
                Some(uid)
            } else {
                uid_in(all, i + 1, from_cmd, pkg)
            },
            _ => uid_in(all, i + 1, from_cmd, pkg),
        }
    }
}

/// The packages of a user id in the first `n` lines.
pub open spec fn packages_in(all: Seq<Seq<char>>, n: nat, from_cmd: bool, uid: u32) -> Seq<Seq<char>>
    decreases n,
{
    if n == 0 {
        seq![]
    } else {
        let before = packages_in(all, (n - 1) as nat, from_cmd, uid);
        match entry_of(all[n - 1], from_cmd) {
            Some((name, Some(found))) => if found == uid {
                before.push(name)
            } else {
                before
            },
            _ => before,
        }
    }
}

/// A line of a list, as characters.
fn read_listed(line: &[char]) -> (r: Option<(Vec<char>, Option<u32>)>)
    ensures
        match r {
            Some((name, uid)) => listed(line@) == Some((name@, uid)),
            None => listed(line@) is None,
        },
{
    let s = trim(line);
    if s.len() == 0 || s[0] == '#' {
        return None;
    }
    let mut w = words(s.as_slice());
    assert(w@.len() == words_of(s@).len());
    if w.len() < 2 {
        return None;
    }
    assert(texts(w@)[0] == w@[0]@ && texts(w@)[1] == w@[1]@);
    let uid: Option<u32> = parse_uid(w[1].as_slice());
    let name = part_of(w[0].as_slice(), 0, w[0].len());
    assert(name@ =~= w@[0]@);
    Some((name, uid))
}

/// The view of an optional word.
spec fn optional_chars(s: Option<Vec<char>>) -> Option<Seq<char>> {
    match s {
        Some(v) => Some(v@),
        None => None,
    }
}

fn read_printed(line: &[char]) -> (r: Option<(Vec<char>, Option<u32>)>)
    ensures
        match r {
            Some((name, uid)) => printed(line@) == Some((name@, uid)),
            None => printed(line@) is None,
        },
{
    let s = trim(line);
    let package = chars_of("package:");
    let user = chars_of("uid:");
    if !starts_with(s.as_slice(), package.as_slice()) || !contains(s.as_slice(), user.as_slice()) {
        return None;
    }
    let w = words(s.as_slice());
    let ghost parts = words_of(s@);
    let mut name: Option<Vec<char>> = None;
    let mut uid: Option<u32> = None;
    assert(w@.len() == parts.len());
    for i in 0..w.len()
        invariant
            texts(w@) == parts,
            w@.len() == parts.len(),
            package@ == "package:"@,
            user@ == "uid:"@,
            (optional_chars(name), uid) == printed_parts(parts, i as nat),
    {
        assert(w@[i as int]@ == texts(w@)[i as int]);
        match strip_prefix(w[i].as_slice(), package.as_slice()) {
            Some(value) => {
                name = Some(value);
            },
            None => {
                if let Some(value) = strip_prefix(w[i].as_slice(), user.as_slice()) {
                    uid = parse_uid(value.as_slice());
                }
            },
        }
    }
    match name {
        Some(name) => Some((name, uid)),
        None => None,
    }
}

fn read_entry(line: &[char], from_cmd: bool) -> (r: Option<(Vec<char>, Option<u32>)>)
    ensures
        match r {
            Some((name, uid)) => entry_of(line@, from_cmd) == Some((name@, uid)),
            None => entry_of(line@, from_cmd) is None,
        },
{
    if from_cmd {
        read_printed(line)
    } else {
        read_listed(line)
    }
}

fn find_uid(contents: &str, from_cmd: bool, pkg: &str) -> (r: Option<u32>)
    ensures
        r == uid_in(lines_of(contents@), 0, from_cmd, pkg@),
{
    let all = lines(chars_of(contents).as_slice());
    let wanted = chars_of(pkg);
    let ghost spec_lines = lines_of(contents@);
    assert(all@.len() == spec_lines.len());
    for i in 0..all.len()
        invariant
            texts(all@) == spec_lines,
            all@.len() == spec_lines.len(),
            wanted@ == pkg@,
            uid_in(spec_lines, 0, from_cmd, pkg@) == uid_in(spec_lines, i as int, from_cmd, pkg@),
            spec_lines == lines_of(contents@),
    {
        assert(all@[i as int]@ == texts(all@)[i as int]);
        if let Some((name, Some(uid))) = read_entry(all[i].as_slice(), from_cmd) {
            if same_text(name.as_slice(), wanted.as_slice()) {
                return Some(uid);
            }
        }
    }
    None
}

fn find_packages(contents: &str, from_cmd: bool, uid: u32) -> (r: Vec<String>)
    ensures
        string_texts(r@) == packages_in(
            lines_of(contents@),
            lines_of(contents@).len(),
            from_cmd,
            uid,
        ),
{
    let all = lines(chars_of(contents).as_slice());
    let ghost spec_lines = lines_of(contents@);
    let mut r: Vec<String> = Vec::new();
    assert(string_texts(r@) =~= Seq::<Seq<char>>::empty());
    assert(all@.len() == spec_lines.len());
    for i in 0..all.len()
        invariant
            texts(all@) == spec_lines,
            all@.len() == spec_lines.len(),
            string_texts(r@) == packages_in(spec_lines, i as nat, from_cmd, uid),
    {
        assert(all@[i as int]@ == texts(all@)[i as int]);
        if let Some((name, Some(found))) = read_entry(all[i].as_slice(), from_cmd) {
            if found == uid {
                let ghost before = string_texts(r@);
                let text = string_of(name.as_slice());
                r.push(text);
                assert(string_texts(r@) =~= before.push(text@));
            }
        }
    }
    r
}

/// The user id of a package in `packages.list`.
pub fn parse_packages_list_for_pkg(contents: &str, pkg: &str) -> (r: Option<u32>)
    ensures
        r == uid_in(lines_of(contents@), 0, false, pkg@),
{
    find_uid(contents, false, pkg)
}

/// The packages of a user id in `packages.list`.
pub fn parse_packages_list_for_uid(contents: &str, uid: u32) -> (r: Vec<String>)
    ensures
        string_texts(r@) == packages_in(
            lines_of(contents@),
            lines_of(contents@).len(),
            false,
            uid,
        ),
{
    find_packages(contents, false, uid)
}

/// The user id of a package in what `cmd package list packages -U` prints.
pub fn parse_cmd_package_list_for_pkg(contents: &str, pkg: &str) -> (r: Option<u32>)
    ensures
        r == uid_in(lines_of(contents@), 0, true, pkg@),
{
    find_uid(contents, true, pkg)
}

/// The packages of a user id in what `cmd package list packages -U` prints.
pub fn parse_cmd_package_list_for_uid(contents: &str, uid: u32) -> (r: Vec<String>)
    ensures
        string_texts(r@) == packages_in(lines_of(contents@), lines_of(contents@).len(), true, uid),
{
    find_packages(contents, true, uid)
}

// ---------------------------------------------------------------------------
// dumpsys and pm
// ---------------------------------------------------------------------------

/// The digits that a text starts with.
pub open spec fn leading_digits(s: Seq<char>) -> Seq<char>
    decreases s.len(),
{
    if s.len() > 0 && '0' <= s[0] <= '9' {
        seq![s[0]] + leading_digits(s.drop_first())
    } else {
        seq![]
    }
}

/// The number behind the first `userId=`.
pub open spec fn user_id_in(s: Seq<char>) -> Option<u32> {
    match next_of(s, "userId="@, 0) {
        None => None,
        Some(i) => uid_of(leading_digits(s.skip(i + "userId="@.len()))),
    }
}

/// The user id in what `dumpsys package` prints.
pub fn parse_dumpsys_user_id(contents: &str) -> (r: Option<u32>)
    ensures
        r == user_id_in(contents@),
{
    let chars = chars_of(contents);
    let mark = chars_of("userId=");
    let start: usize = match find_text(chars.as_slice(), mark.as_slice()) {
        None => {
            proof {
                if next_of(contents@, mark@, 0) is Some {
                    let i = choose|i: int| crate::bytes::first_occurrence(contents@, mark@, 0, i);
                    assert(occurs_at(contents@, mark@, i));
                }
            }
            return None;
        },
        Some(i) => {
            assert(crate::bytes::first_occurrence(contents@, mark@, 0, i as int));
            assert(next_of(contents@, mark@, 0) == Some(i as int));
            assert(i + mark.len() <= chars.len());
            i + mark.len()
        },
    };
    let ghost suffix = contents@.skip(start as int);
    let mut end: usize = start;
    assert(suffix.skip(0) =~= suffix);
    assert(suffix.take(0) + leading_digits(suffix) =~= leading_digits(suffix));
    while end < chars.len() && '0' <= chars[end] && chars[end] <= '9'
        invariant
            start <= end <= chars@.len(),
            chars@ == contents@,
            suffix == contents@.skip(start as int),
            leading_digits(suffix) == suffix.take(end - start) + leading_digits(
                suffix.skip(end - start),
            ),
        decreases chars@.len() - end,
    {
        let ghost n = end - start;
        assert(suffix.skip(n).drop_first() =~= suffix.skip(n + 1));
        assert(suffix.take(n) + (seq![suffix[n]] + leading_digits(suffix.skip(n + 1)))
            =~= suffix.take(n + 1) + leading_digits(suffix.skip(n + 1)));
        end += 1;
    }
    let digits = part_of(chars.as_slice(), start, end);
    assert(digits@ =~= leading_digits(suffix));
    parse_uid(digits.as_slice())
}

/// The paths in the first `n` lines of what `pm path` prints: what follows `package:`.
pub open spec fn paths_in(all: Seq<Seq<char>>, n: nat) -> Seq<Seq<char>>
    decreases n,
{
    if n == 0 {
        seq![]
    } else {
        let before = paths_in(all, (n - 1) as nat);
        let s = trim_of(all[n - 1]);
        if has_prefix(s, "package:"@) && s.len() > "package:"@.len() {
            before.push(s.skip("package:"@.len() as int))
        } else {
            before
        }
    }
}

/// The paths in what `pm path` prints.
pub fn parse_pm_paths(output: &str) -> (r: Vec<String>)
    ensures
        string_texts(r@) == paths_in(lines_of(output@), lines_of(output@).len()),
{
    let all = lines(chars_of(output).as_slice());
    let package = chars_of("package:");
    let ghost spec_lines = lines_of(output@);
    let mut r: Vec<String> = Vec::new();
    assert(string_texts(r@) =~= Seq::<Seq<char>>::empty());
    assert(all@.len() == spec_lines.len());
    for i in 0..all.len()
        invariant
            texts(all@) == spec_lines,
            all@.len() == spec_lines.len(),
            package@ == "package:"@,
            string_texts(r@) == paths_in(spec_lines, i as nat),
    {
        assert(all@[i as int]@ == texts(all@)[i as int]);
        let s = trim(all[i].as_slice());
        if let Some(path) = strip_prefix(s.as_slice(), package.as_slice()) {
            if path.len() > 0 {
                let ghost before = string_texts(r@);
                let text = string_of(path.as_slice());
                r.push(text);
                assert(string_texts(r@) =~= before.push(text@));
            }
        }
    }
    r
}

// ---------------------------------------------------------------------------
// Lookups
// ---------------------------------------------------------------------------

/// A question about packages.
#[derive(Clone, Copy, Debug, PartialEq, Eq, Structural)]
pub enum PackageQuery {
    /// What `/data/system/packages.list` holds.
    PackagesList,
    /// What `cmd package list packages -U` prints.
    ListPackages,
    /// What `dumpsys package` prints of the package's user id.
    DumpPackage,
}

/// The answer to a question, if there is one.
pub type Answers = spec_fn(PackageQuery) -> Option<Seq<char>>;

/// The user id of a package in an answer.
pub open spec fn uid_in_answer(query: PackageQuery, answer: Option<Seq<char>>, pkg: Seq<char>) -> Option<
    u32,
> {
    match answer {
        None => None,
        Some(text) => match query {
            PackageQuery::PackagesList => uid_in(lines_of(text), 0, false, pkg),
            PackageQuery::ListPackages => uid_in(lines_of(text), 0, true, pkg),
            PackageQuery::DumpPackage => user_id_in(text),
        },
    }
}

/// The question that follows when one gave no user id.
pub open spec fn next_query(query: PackageQuery) -> Option<PackageQuery> {
    match query {
        PackageQuery::PackagesList => Some(PackageQuery::ListPackages),
        PackageQuery::ListPackages => Some(PackageQuery::DumpPackage),
        PackageQuery::DumpPackage => None,
    }
}

/// The user id that the answers give, from a question on.
pub open spec fn uid_from(answers: Answers, query: Option<PackageQuery>, pkg: Seq<char>) -> Option<u32>
    decreases (match query {
        None => 0int,
        Some(PackageQuery::DumpPackage) => 1,
        Some(PackageQuery::ListPackages) => 2,
        Some(PackageQuery::PackagesList) => 3,
    }),
{
    match query {
        None => None,
        Some(q) => match uid_in_answer(q, answers(q), pkg) {
            Some(uid) => Some(uid),
            None => uid_from(answers, next_query(q), pkg),
        },
    }
}

/// A lookup of the user id of a package: the questions are asked in turn until one gives
/// it.
#[derive(Clone, Debug, PartialEq, Eq)]
pub struct UidLookup {
    pub pkg: String,
    pub query: Option<PackageQuery>,
    pub uid: Option<u32>,
}

/// The text of an answer.
pub open spec fn answer_text(answer: Option<&str>) -> Option<Seq<char>> {
    match answer {
        Some(s) => Some(s@),
        None => None,
    }
}

impl UidLookup {
    /// What the lookup comes to.
    pub open spec fn outcome(&self, answers: Answers) -> Option<u32> {
        match self.uid {
            Some(uid) => Some(uid),
            None => uid_from(answers, self.query, self.pkg@),
        }
    }

    /// Starts a lookup.
    pub fn new(pkg: &str) -> (r: Self)
        ensures
            r.pkg@ == pkg@,
            r.query == Some(PackageQuery::PackagesList),
            r.uid is None,
    {
        UidLookup { pkg: pkg.to_owned(), query: Some(PackageQuery::PackagesList), uid: None }
    }

    /// Takes the answer to the question. When there is no question left, the lookup has
    /// come to its user id, or to none.
    pub fn supply(&mut self, answer: Option<&str>)
        requires
            old(self).query is Some,
            old(self).uid is None,
        ensures
            final(self).pkg == old(self).pkg,
            final(self).query is Some ==> final(self).uid is None,
            final(self).query is None || final(self).query == next_query(old(self).query->Some_0),
            forall|answers: Answers|
                #![trigger final(self).outcome(answers)]
                answers(old(self).query->Some_0) == answer_text(answer) ==> final(self).outcome(answers)
                    == old(self).outcome(answers),
    {
        let ghost before = *self;
        if let Some(query) = self.query {
            let uid: Option<u32> = match answer {
                None => None,
                Some(text) => match query {
                    PackageQuery::PackagesList => parse_packages_list_for_pkg(
                        text,
                        self.pkg.as_str(),
                    ),
                    PackageQuery::ListPackages => parse_cmd_package_list_for_pkg(
                        text,
                        self.pkg.as_str(),
                    ),
                    PackageQuery::DumpPackage => parse_dumpsys_user_id(text),
                },
            };
            self.uid = uid;
            self.query = if uid.is_some() {
                None
            } else {
                match query {
                    PackageQuery::PackagesList => Some(PackageQuery::ListPackages),
                    PackageQuery::ListPackages => Some(PackageQuery::DumpPackage),
                    PackageQuery::DumpPackage => None,
                }
            };
            assert forall|answers: Answers| answers(query) == answer_text(answer) implies
                #[trigger] self.outcome(answers) == before.outcome(answers) by {
                assert(uid == uid_in_answer(query, answers(query), before.pkg@));
                if uid is None && query == PackageQuery::DumpPackage {
                    assert(uid_from(answers, None, before.pkg@) is None);
                }
            }
        }
    }
}

/// The packages of a user id in an answer.
pub open spec fn packages_in_answer(query: PackageQuery, answer: Option<Seq<char>>, uid: u32) -> Seq<
    Seq<char>,
> {
    match (answer, query) {
        (Some(text), PackageQuery::PackagesList) => packages_in(
            lines_of(text),
            lines_of(text).len(),
            false,
            uid,
        ),
        (Some(text), PackageQuery::ListPackages) => packages_in(
            lines_of(text),
            lines_of(text).len(),
            true,
            uid,
        ),
        _ => seq![],
    }
}

/// The packages of a user id: those in `packages.list`, or else those that the package
/// manager prints.
pub open spec fn packages_from(answers: Answers, uid: u32) -> Seq<Seq<char>> {
    let first = packages_in_answer(
        PackageQuery::PackagesList,
        answers(PackageQuery::PackagesList),
        uid,
    );
    if first.len() > 0 {
        first
    } else {
        packages_in_answer(PackageQuery::ListPackages, answers(PackageQuery::ListPackages), uid)
    }
}

/// A lookup of the packages of a user id.
#[derive(Clone, Debug, PartialEq, Eq)]
pub struct PackagesLookup {
    pub uid: u32,
    pub query: Option<PackageQuery>,
    pub packages: Vec<String>,
}

impl PackagesLookup {
    /// What the lookup comes to.
    pub open spec fn outcome(&self, answers: Answers) -> Seq<Seq<char>> {
        match self.query {
            None => string_texts(self.packages@),
            Some(PackageQuery::PackagesList) => packages_from(answers, self.uid),
            Some(query) => packages_in_answer(query, answers(query), self.uid),
        }
    }

    /// Starts a lookup.
    pub fn new(uid: u32) -> (r: Self)
        ensures
            r.uid == uid,
            r.query == Some(PackageQuery::PackagesList),
            forall|answers: Answers| #[trigger] r.outcome(answers) == packages_from(answers, uid),
    {
        PackagesLookup { uid, query: Some(PackageQuery::PackagesList), packages: Vec::new() }
    }

    /// Takes the answer to the question. When there is no question left, the lookup has
    /// come to its packages, or to none.
    pub fn supply(&mut self, answer: Option<&str>)
        requires
            old(self).query is Some,
        ensures
            final(self).uid == old(self).uid,
            final(self).query is None || (old(self).query == Some(PackageQuery::PackagesList)
                && final(self).query == Some(PackageQuery::ListPackages)),
            forall|answers: Answers|
                #![trigger final(self).outcome(answers)]
                answers(old(self).query->Some_0) == answer_text(answer) ==> final(self).outcome(answers)
                    == old(self).outcome(answers),
    {
        let ghost before = *self;
        if let Some(query) = self.query {
            self.packages = match (answer, query) {
                (Some(text), PackageQuery::PackagesList) => parse_packages_list_for_uid(
                    text,
                    self.uid,
                ),
                (Some(text), PackageQuery::ListPackages) => parse_cmd_package_list_for_uid(
                    text,
                    self.uid,
                ),
                _ => Vec::new(),
            };
            let ghost found = string_texts(self.packages@);
            assert(found =~= packages_in_answer(query, answer_text(answer), before.uid));
            let ask_again: bool = match query {
                PackageQuery::PackagesList => self.packages.len() == 0,
                _ => false,
            };
            self.query = if ask_again {
                Some(PackageQuery::ListPackages)
            } else {
                None
            };
            assert forall|answers: Answers| answers(query) == answer_text(answer) implies
                #[trigger] self.outcome(answers) == before.outcome(answers) by {
                assert(found.len() == self.packages@.len());
            }
        }
    }
}

/// The shell command that answers a question about a package, where one does.
pub open spec fn command_of(query: PackageQuery, pkg: Seq<char>) -> Option<Seq<char>> {
    match query {
        PackageQuery::PackagesList => None,
        PackageQuery::ListPackages => Some("cmd package list packages -U"@),
        PackageQuery::DumpPackage => Some(
            "dumpsys package "@ + pkg + " | grep -m1 userId="@,
        ),
    }
}

/// The shell command that answers a question about a package. The list of packages is a
/// file instead.
pub fn shell_command(query: PackageQuery, pkg: &str) -> (r: Option<String>)
    ensures
        match r {
            Some(command) => command_of(query, pkg@) == Some(command@),
            None => command_of(query, pkg@) is None,
        },
{
    match query {
        PackageQuery::PackagesList => None,
        PackageQuery::ListPackages => Some("cmd package list packages -U".to_owned()),
        PackageQuery::DumpPackage => {
            let mut command: String = "dumpsys package ".to_owned();
            command.append(pkg);
            command.append(" | grep -m1 userId=");
            Some(command)
        },
    }
}

// ---------------------------------------------------------------------------
// Paths
// ---------------------------------------------------------------------------

/// The directories that belong to the system.
pub open spec fn system_roots() -> Seq<Seq<char>> {
    seq!["/system/"@, "/system_ext/"@, "/product/"@, "/vendor/"@, "/odm/"@, "/apex/"@]
}

/// The path leads into a directory of the system.
pub open spec fn is_system_path(path: Seq<char>) -> bool {
    exists|i: int|
        0 <= i < system_roots().len() && has_prefix(path, #[trigger] system_roots()[i])
}

/// Whether a file belongs to the system rather than to an app.
pub fn is_system_dex_path(path: &str) -> (r: bool)
    ensures
        r == is_system_path(path@),
{
    let chars = chars_of(path);
    let roots: [&'static str; 6] = [
        "/system/",
        "/system_ext/",
        "/product/",
        "/vendor/",
        "/odm/",
        "/apex/",
    ];
    let ghost all = system_roots();
    for i in 0..roots.len()
        invariant
            chars@ == path@,
            all == system_roots(),
            roots@.len() == all.len(),
            forall|j: int| 0 <= j < all.len() ==> roots@[j]@ == #[trigger] all[j],
            forall|j: int| 0 <= j < i ==> !has_prefix(path@, #[trigger] all[j]),
    {
        let root = chars_of(roots[i]);
        assert(root@ == all[i as int]);
        if starts_with(chars.as_slice(), root.as_slice()) {
            return true;
        }
    }
    false
}

/// A character that the name of a directory can hold everywhere: a letter or digit of
/// ASCII, a dot, an underscore or a hyphen.
pub open spec fn is_plain_char(c: char) -> bool {
    ||| 'a' <= c <= 'z'
    ||| 'A' <= c <= 'Z'
    ||| '0' <= c <= '9'
    ||| c == '.' || c == '_' || c == '-'
}

/// A name with an underscore in place of each character that is not plain.
pub open spec fn plain_name(name: Seq<char>) -> Seq<char> {
    name.map_values(
        |c: char|
            if is_plain_char(c) {
                c
            } else {
                '_'
            },
    )
}

/// A name that can stand for a directory: every character that is not plain becomes an
/// underscore.
pub fn sanitize_path_component(name: &str) -> (r: String)
    ensures
        r@ == plain_name(name@),
{
    let chars = chars_of(name);
    let mut r: String = String::new();
    for i in 0..chars.len()
        invariant
            chars@ == name@,
            r@ == plain_name(name@).take(i as int),
    {
        let c: char = chars[i];
        let plain = ('a' <= c && c <= 'z') || ('A' <= c && c <= 'Z') || ('0' <= c && c <= '9') || c
            == '.' || c == '_' || c == '-';
        r.push(
            if plain {
                c
            } else {
                '_'
            },
        );
        assert(r@ =~= plain_name(name@).take(i + 1));
    }
    assert(r@ =~= plain_name(name@));
    r
}

/// The parts of a path among the first `n` fields between its slashes: those that are
/// neither empty nor a single dot. A path that starts with a dot keeps it.
pub open spec fn parts_in(all: Seq<Seq<char>>, n: nat) -> Seq<Seq<char>>
    decreases n,
{
    if n == 0 {
        seq![]
    } else {
        let before = parts_in(all, (n - 1) as nat);
        let field = all[n - 1];
        if field.len() == 0 || (field == seq!['.'] && n > 1) {
            before
        } else {
            before.push(field)
        }
    }
}

/// The parts of a path: what stands between its slashes, without repeated slashes and
/// single dots.
pub open spec fn path_parts(path: Seq<char>) -> Seq<Seq<char>> {
    parts_in(fields_of(path, '/'), fields_of(path, '/').len())
}

/// The path starts at the root.
pub open spec fn is_absolute(path: Seq<char>) -> bool {
    path.len() > 0 && path[0] == '/'
}

/// The path made of these parts, each behind a slash.
pub open spec fn path_text(parts: Seq<Seq<char>>) -> Seq<char>
    decreases parts.len(),
{
    if parts.len() == 0 {
        seq![]
    } else {
        path_text(parts.drop_last()).push('/') + parts.last()
    }
}

/// The directory with compiled code that belongs to a file: `oat`, next to the file. There is
/// none for the root, for a file right below it, and for an empty path.
pub open spec fn oat_dir_of(path: Seq<char>) -> Option<Seq<char>> {
    let parts = path_parts(path);
    if parts.len() == 0 || (is_absolute(path) && parts.len() == 1) {
        None
    } else {
        let text = path_text(parts.drop_last().push("oat"@));
        Some(
            if is_absolute(path) {
                text
            } else {
                text.drop_first()
            },
        )
    }
}

/// The directories with compiled code that belong to the first `n` files, each once, in the
/// order of the files.
pub open spec fn oat_dirs_of(paths: Seq<Seq<char>>, n: nat) -> Seq<Seq<char>>
    decreases n,
{
    if n == 0 {
        seq![]
    } else {
        let before = oat_dirs_of(paths, (n - 1) as nat);
        match oat_dir_of(paths[n - 1]) {
            Some(dir) if !before.contains(dir) => before.push(dir),
            _ => before,
        }
    }
}

fn split_path(path: &[char]) -> (r: Vec<Vec<char>>)
    ensures
        texts(r@) == path_parts(path@),
{
    let all = fields(path, '/');
    let ghost spec_fields = fields_of(path@, '/');
    let mut r: Vec<Vec<char>> = Vec::new();
    assert(texts(r@) =~= Seq::<Seq<char>>::empty());
    assert(all@.len() == spec_fields.len());
    for i in 0..all.len()
        invariant
            texts(all@) == spec_fields,
            all@.len() == spec_fields.len(),
            texts(r@) == parts_in(spec_fields, i as nat),
    {
        let ghost before = texts(r@);
        let field = part_of(all[i].as_slice(), 0, all[i].len());
        assert(all@[i as int]@ == texts(all@)[i as int]);
        assert(field@ =~= spec_fields[i as int]);
        let dot = field.len() == 1 && field[0] == '.';
        assert(dot == (field@ =~= seq!['.']));
        if field.len() > 0 && !(dot && i > 0) {
            let ghost text = field@;
            r.push(field);
            assert(texts(r@) =~= before.push(text));
        }
    }
    r
}

fn oat_dir(path: &str) -> (r: Option<String>)
    ensures
        match r {
            Some(dir) => oat_dir_of(path@) == Some(dir@),
            None => oat_dir_of(path@) is None,
        },
{
    let chars = chars_of(path);
    let absolute = chars.len() > 0 && chars[0] == '/';
    let parts = split_path(chars.as_slice());
    let ghost all = path_parts(path@);
    assert(parts@.len() == texts(parts@).len());
    if parts.len() == 0 || (absolute && parts.len() == 1) {
        return None;
    }
    let last: usize = parts.len() - 1;
    let mut text: Vec<char> = Vec::new();
    assert(all.take(0) =~= Seq::<Seq<char>>::empty());
    assert(text@ =~= Seq::<char>::empty());
    for i in 0..last
        invariant
            last < parts@.len(),
            texts(parts@) == all,
            text@ == path_text(all.take(i as int)),
    {
        let mut part = part_of(parts[i].as_slice(), 0, parts[i].len());
        assert(parts@[i as int]@ == texts(parts@)[i as int]);
        assert(part@ =~= all[i as int]);
        assert(all.take(i + 1).drop_last() =~= all.take(i as int));
        text.push('/');
        text.append(&mut part);
    }
    let ghost whole = all.drop_last().push("oat"@);
    assert(whole.drop_last() =~= all.take(last as int));
    text.push('/');
    text.append(&mut chars_of("oat"));
    assert(text@ == path_text(whole));
    if absolute {
        Some(string_of(text.as_slice()))
    } else {
        let rest = part_of(text.as_slice(), 1, text.len());
        assert(rest@ =~= text@.drop_first());
        Some(string_of(rest.as_slice()))
    }
}

/// The directories with compiled code that belong to some files.
pub fn oat_dirs(paths: &Vec<String>) -> (r: Vec<String>)
    ensures
        string_texts(r@) == oat_dirs_of(string_texts(paths@), paths@.len()),
{
    let mut r: Vec<String> = Vec::new();
    let ghost all = string_texts(paths@);
    assert(string_texts(r@) =~= Seq::<Seq<char>>::empty());
    for i in 0..paths.len()
        invariant
            all == string_texts(paths@),
            string_texts(r@) == oat_dirs_of(all, i as nat),
    {
        let ghost before = string_texts(r@);
        assert(all[i as int] == paths@[i as int]@);
        if let Some(dir) = oat_dir(paths[i].as_str()) {
            if !has_text(&r, &dir) {
                let ghost text = dir@;
                r.push(dir);
                assert(string_texts(r@) =~= before.push(text));
            }
        }
    }
    r
}

fn has_text(v: &Vec<String>, text: &String) -> (r: bool)
    ensures
        r == string_texts(v@).contains(text@),
{
    for i in 0..v.len()
        invariant
            forall|j: int| 0 <= j < i ==> string_texts(v@)[j] != text@,
    {
        if v[i] == *text {
            assert(string_texts(v@)[i as int] == text@);
            return true;
        }
    }
    false
}

/// No directory with compiled code is named twice, and each file that has one has it named.
pub proof fn law_oat_dirs_are_distinct(paths: Seq<Seq<char>>, n: nat)
    requires
        n <= paths.len(),
    ensures
        oat_dirs_of(paths, n).no_duplicates(),
        forall|dir: Seq<char>| #[trigger]
            oat_dirs_of(paths, n).contains(dir) <==> exists|i: int|
                0 <= i < n && oat_dir_of(#[trigger] paths[i]) == Some(dir),
    decreases n,
{
    if n > 0 {
        law_oat_dirs_are_distinct(paths, (n - 1) as nat);
        let before = oat_dirs_of(paths, (n - 1) as nat);
        let after = oat_dirs_of(paths, n);
        assert forall|dir: Seq<char>| #[trigger] after.contains(dir) <==> exists|i: int|
            0 <= i < n && oat_dir_of(#[trigger] paths[i]) == Some(dir) by {
            if before.contains(dir) {
                let k = before.index_of(dir);
                assert(after[k] == dir);
                let i = choose|i: int| 0 <= i < n - 1 && oat_dir_of(#[trigger] paths[i]) == Some(dir);
                assert(oat_dir_of(paths[i]) == Some(dir));
            }
            if after.contains(dir) && !before.contains(dir) {
                assert(oat_dir_of(paths[n - 1]) == Some(dir));
            }
            if oat_dir_of(paths[n - 1]) == Some(dir) && !before.contains(dir) {
                assert(after.last() == dir);
            }
        }
    }
}

// ---------------------------------------------------------------------------
// Laws
// ---------------------------------------------------------------------------

/// A line of `packages.list` starts with the package and its user id; what follows does not
/// matter. A comment and a line of one word list none.
pub proof fn law_listed_package(pkg: Seq<char>, uid: u32, rest: Seq<char>)
    requires
        is_solid(pkg),
        pkg.len() > 0,
    ensures
        pkg[0] != '#' ==> listed(pkg.push(' ') + (dec_text(uid as nat).push(' ') + rest)) == Some(
            (pkg, Some(uid)),
        ),
        pkg[0] == '#' ==> listed(pkg.push(' ') + rest) is None,
        listed(pkg) is None,
{
    let number = dec_text(uid as nat);
    law_numbers_are_read_back(uid as nat, u32::MAX as int);
    let tail = number.push(' ') + rest;
    let line = pkg.push(' ') + tail;
    lemma_trimming_keeps_the_first(line);
    lemma_trimming_leaves_words(line);
    lemma_first_word(pkg, ' ', tail);
    lemma_first_word(number, ' ', rest);
    assert(words_of(line)[0] == pkg);
    assert(words_of(line)[1] == number);
    let comment = pkg.push(' ') + rest;
    lemma_trimming_keeps_the_first(comment);
    lemma_trimming_leaves_words(pkg);
    law_words_are_parted_by_white_space(pkg, ' ', rest, pkg);
}

/// A line of `cmd package list packages -U` names the package behind `package:` and its user id
/// behind `uid:`.
pub proof fn law_printed_package(pkg: Seq<char>, uid: u32)
    requires
        is_solid(pkg),
    ensures
        printed(("package:"@ + pkg).push(' ') + ("uid:"@ + dec_text(uid as nat))) == Some(
            (pkg, Some(uid)),
        ),
{
    reveal_strlit("package:");
    reveal_strlit("uid:");
    let number = dec_text(uid as nat);
    let (a, b) = ("package:"@ + pkg, "uid:"@ + number);
    let line = a.push(' ') + b;
    law_numbers_are_read_back(uid as nat, u32::MAX as int);
    assert forall|i: int| 0 <= i < a.len() implies !is_white_space(#[trigger] a[i]) by {
        if i >= 8 {
            assert(a[i] == pkg[i - 8]);
        }
    }
    assert forall|i: int| 0 <= i < b.len() implies !is_white_space(#[trigger] b[i]) by {
        if i >= 4 {
            assert(b[i] == number[i - 4]);
        }
    }
    assert(line.last() == b[b.len() - 1]);
    law_white_space_at_the_ends_is_removed(Seq::empty(), line, Seq::empty());
    assert(Seq::<char>::empty() + line + Seq::<char>::empty() =~= line);
    lemma_first_word(a, ' ', b);
    law_words_are_parted_by_white_space(a, ' ', b, b);
    let w = words_of(line);
    assert(w =~= seq![a, b]);
    assert(line.take(8) =~= "package:"@);
    assert(a.take(8) =~= "package:"@);
    assert(a.skip(8) =~= pkg);
    assert(b.take(4) =~= "uid:"@);
    assert(b.skip(4) =~= number);
    assert(line.subrange(a.len() as int + 1, a.len() as int + 5) =~= "uid:"@);
    assert(occurs_at(line, "uid:"@, a.len() as int + 1));
    assert(!has_prefix(b, "package:"@)) by {
        if has_prefix(b, "package:"@) {
            assert(b.take(8)[0] == 'u');
        }
    }
    reveal_with_fuel(printed_parts, 3);
}

/// The user id of a package is that of the first line that gives one for it.
pub proof fn law_first_line_counts(all: Seq<Seq<char>>, from: int, from_cmd: bool, pkg: Seq<char>)
    requires
        0 <= from <= all.len(),
    ensures
        match uid_in(all, from, from_cmd, pkg) {
            Some(uid) => exists|i: int|
                from <= i < all.len() && gives(#[trigger] all[i], from_cmd, pkg, uid) && forall|
                    j: int,
                    other: u32,
                |
                    from <= j < i ==> !#[trigger] gives(all[j], from_cmd, pkg, other),
            None => forall|j: int, other: u32|
                from <= j < all.len() ==> !#[trigger] gives(all[j], from_cmd, pkg, other),
        },
    decreases all.len() - from,
{
    if from < all.len() {
        law_first_line_counts(all, from + 1, from_cmd, pkg);
        if let Some(uid) = uid_in(all, from, from_cmd, pkg) {
            if gives(all[from], from_cmd, pkg, uid) {
                assert(gives(all[from], from_cmd, pkg, uid));
            } else {
                let i = choose|i: int|
                    from + 1 <= i < all.len() && gives(#[trigger] all[i], from_cmd, pkg, uid)
                        && forall|j: int, other: u32|
                        from + 1 <= j < i ==> !#[trigger] gives(all[j], from_cmd, pkg, other);
                assert(gives(all[i], from_cmd, pkg, uid));
            }
        }
    }
}

/// The line gives this user id for the package.
pub open spec fn gives(line: Seq<char>, from_cmd: bool, pkg: Seq<char>, uid: u32) -> bool {
    (if from_cmd {
        printed(line)
    } else {
        listed(line)
    }) == Some((pkg, Some(uid)))
}

/// The packages of a user id are those that some line gives it for.
pub proof fn law_packages_of_a_user(all: Seq<Seq<char>>, n: nat, from_cmd: bool, uid: u32, pkg: Seq<char>)
    requires
        n <= all.len(),
    ensures
        packages_in(all, n, from_cmd, uid).contains(pkg) <==> exists|i: int|
            0 <= i < n && gives(#[trigger] all[i], from_cmd, pkg, uid),
    decreases n,
{
    if n > 0 {
        law_packages_of_a_user(all, (n - 1) as nat, from_cmd, uid, pkg);
        let before = packages_in(all, (n - 1) as nat, from_cmd, uid);
        let after = packages_in(all, n, from_cmd, uid);
        if before.contains(pkg) {
            let k = before.index_of(pkg);
            assert(after[k] == pkg);
            let i = choose|i: int| 0 <= i < n - 1 && gives(#[trigger] all[i], from_cmd, pkg, uid);
            assert(gives(all[i], from_cmd, pkg, uid));
        }
        if gives(all[n - 1], from_cmd, pkg, uid) {
            assert(after.last() == pkg);
        }
        if after.contains(pkg) && !before.contains(pkg) {
            assert(gives(all[n - 1], from_cmd, pkg, uid));
        }
    }
}

/// A package that `packages.list` lists has its user id from there. One that it does not list
/// has it from the package manager, and failing that from what is dumped of the package.
pub proof fn law_answers_are_tried_in_turn(
    answers: Answers,
    pkg: Seq<char>,
    uid: u32,
    rest: Seq<char>,
)
    requires
        is_solid(pkg),
        pkg.len() > 0,
        pkg[0] != '#',
    ensures
        answers(PackageQuery::PackagesList) == Some(
            (pkg.push(' ') + dec_text(uid as nat)).push('\n') + rest,
        ) ==> uid_from(answers, Some(PackageQuery::PackagesList), pkg) == Some(uid),
        answers(PackageQuery::PackagesList) is None && answers(PackageQuery::ListPackages) == Some(
            (("package:"@ + pkg).push(' ') + ("uid:"@ + dec_text(uid as nat))).push('\n') + rest,
        ) ==> uid_from(answers, Some(PackageQuery::PackagesList), pkg) == Some(uid),
        answers(PackageQuery::PackagesList) is None && answers(PackageQuery::ListPackages) is None
            && answers(PackageQuery::DumpPackage) is None ==> uid_from(
            answers,
            Some(PackageQuery::PackagesList),
            pkg,
        ) is None,
{
    reveal_with_fuel(uid_from, 4);
    lemma_listed_answer(pkg, uid, rest);
    lemma_printed_answer(pkg, uid, rest);
}

proof fn lemma_listed_answer(pkg: Seq<char>, uid: u32, rest: Seq<char>)
    requires
        is_solid(pkg),
        pkg.len() > 0,
        pkg[0] != '#',
    ensures
        uid_in(
            lines_of((pkg.push(' ') + dec_text(uid as nat)).push('\n') + rest),
            0,
            false,
            pkg,
        ) == Some(uid),
{
    let number = dec_text(uid as nat);
    law_numbers_are_read_back(uid as nat, u32::MAX as int);
    let line = pkg.push(' ') + number;
    assert forall|i: int| 0 <= i < line.len() implies line[i] != '\n' by {
        if i < pkg.len() {
            assert(line[i] == pkg[i]);
        } else if i > pkg.len() {
            assert(line[i] == number[i - pkg.len() - 1]);
        }
    }
    lemma_dec_digits(uid as nat);
    assert(line.last() == number[number.len() - 1]);
    law_lines_end_with_a_line_feed(line, rest);
    assert(lines_of(line.push('\n') + rest)[0] == line);
    lemma_trimming_keeps_the_first(line);
    lemma_trimming_leaves_words(line);
    lemma_first_word(pkg, ' ', number);
    law_words_are_parted_by_white_space(pkg, ' ', number, number);
    assert(words_of(line)[0] == pkg && words_of(line)[1] == number);
    assert(listed(line) == Some((pkg, Some(uid))));
}

proof fn lemma_printed_answer(pkg: Seq<char>, uid: u32, rest: Seq<char>)
    requires
        is_solid(pkg),
    ensures
        uid_in(
            lines_of(
                (("package:"@ + pkg).push(' ') + ("uid:"@ + dec_text(uid as nat))).push('\n') + rest,
            ),
            0,
            true,
            pkg,
        ) == Some(uid),
{
    reveal_strlit("package:");
    reveal_strlit("uid:");
    let number = dec_text(uid as nat);
    let (a, b) = ("package:"@ + pkg, "uid:"@ + number);
    let line = a.push(' ') + b;
    lemma_dec_digits(uid as nat);
    assert forall|i: int| 0 <= i < line.len() implies line[i] != '\n' by {
        if 8 <= i < 8 + pkg.len() {
            assert(line[i] == pkg[i - 8]);
        } else if i >= a.len() + 5 {
            assert(line[i] == number[i - a.len() - 5]);
        }
    }
    law_lines_end_with_a_line_feed(line, rest);
    assert(line.last() == number[number.len() - 1]);
    assert(lines_of(line.push('\n') + rest)[0] == line);
    law_printed_package(pkg, uid);
}

/// The user id in a dump of a package is the number behind the first `userId=`, up to the first
/// character that is no digit.
pub proof fn law_user_id_in_a_dump(before: Seq<char>, uid: u32, after: Seq<char>)
    requires
        forall|i: int|
            0 <= i < before.len() ==> !occurs_at(
                before + "userId="@ + dec_text(uid as nat) + after,
                "userId="@,
                i,
            ),
        after.len() > 0 ==> !('0' <= after[0] <= '9'),
    ensures
        user_id_in(before + "userId="@ + dec_text(uid as nat) + after) == Some(uid),
{
    reveal_strlit("userId=");
    let number = dec_text(uid as nat);
    let s = before + "userId="@ + number + after;
    let at = before.len() as int;
    assert(s.subrange(at, at + 7) =~= "userId="@);
    assert(crate::bytes::first_occurrence(s, "userId="@, 0, at));
    crate::bytes::lemma_next_of(s, "userId="@, 0, at);
    assert(s.skip(at + 7) =~= number + after);
    lemma_dec_digits(uid as nat);
    lemma_leading_digits(number, after);
    law_numbers_are_read_back(uid as nat, u32::MAX as int);
}

proof fn lemma_leading_digits(digits: Seq<char>, after: Seq<char>)
    requires
        forall|i: int| 0 <= i < digits.len() ==> '0' <= #[trigger] digits[i] <= '9',
        after.len() > 0 ==> !('0' <= after[0] <= '9'),
    ensures
        leading_digits(digits + after) == digits,
    decreases digits.len(),
{
    let s = digits + after;
    if digits.len() > 0 {
        let rest = digits.drop_first();
        assert forall|i: int| 0 <= i < rest.len() implies '0' <= #[trigger] rest[i] <= '9' by {
            assert(rest[i] == digits[i + 1]);
        }
        lemma_leading_digits(rest, after);
        assert(s.drop_first() =~= rest + after);
        assert(s[0] == digits[0]);
        assert(seq![digits[0]] + rest =~= digits);
    } else {
        assert(s =~= after);
        assert(leading_digits(s) =~= Seq::<char>::empty());
    }
}

/// The paths that `pm path` prints are what follows `package:` in a line, where that is not
/// empty.
pub proof fn law_printed_paths(all: Seq<Seq<char>>, n: nat, path: Seq<char>)
    requires
        n <= all.len(),
        path.len() > 0,
    ensures
        paths_in(all, n).contains(path) <==> exists|i: int|
            0 <= i < n && trim_of(#[trigger] all[i]) == "package:"@ + path,
        !paths_in(all, n).contains(Seq::<char>::empty()),
    decreases n,
{
    reveal_strlit("package:");
    if n > 0 {
        law_printed_paths(all, (n - 1) as nat, path);
        let before = paths_in(all, (n - 1) as nat);
        let after = paths_in(all, n);
        let s = trim_of(all[n - 1]);
        if before.contains(path) {
            let k = before.index_of(path);
            assert(after[k] == path);
            let i = choose|i: int| 0 <= i < n - 1 && trim_of(#[trigger] all[i]) == "package:"@ + path;
            assert(trim_of(all[i]) == "package:"@ + path);
        }
        if s == "package:"@ + path {
            assert(s.take(8) =~= "package:"@);
            assert(s.skip(8) =~= path);
            assert(after.last() == path);
        }
        if after.contains(path) && !before.contains(path) {
            assert(s =~= "package:"@ + s.skip(8)) by {
                assert forall|i: int| 0 <= i < 8 implies s[i] == "package:"@[i] by {
                    assert(s.take(8)[i] == "package:"@[i]);
                }
            }
            assert(s.skip(8) == path);
        }
    }
}

/// A file belongs to the system where its path starts with one of six directories.
pub proof fn law_system_paths(path: Seq<char>)
    ensures
        is_system_path(path) <==> has_prefix(path, "/system/"@) || has_prefix(path, "/system_ext/"@)
            || has_prefix(path, "/product/"@) || has_prefix(path, "/vendor/"@) || has_prefix(
            path,
            "/odm/"@,
        ) || has_prefix(path, "/apex/"@),
{
    let all = system_roots();
    assert(all[0] == "/system/"@ && all[1] == "/system_ext/"@ && all[2] == "/product/"@);
    assert(all[3] == "/vendor/"@ && all[4] == "/odm/"@ && all[5] == "/apex/"@);
}

/// The directory with compiled code of a file in a directory below the root is `oat` in that
/// directory.
pub proof fn law_oat_lies_next_to_the_file(dir: Seq<char>, file: Seq<char>)
    requires
        dir.len() > 0,
        file.len() > 0,
        !dir.contains('/'),
        !file.contains('/'),
        dir != seq!['.'],
        file != seq!['.'],
    ensures
        oat_dir_of(seq!['/'] + dir + seq!['/'] + file) == Some(seq!['/'] + dir + "/oat"@),
        oat_dir_of(seq!['/'] + file) is None,
{
    reveal_strlit("/oat");
    reveal_strlit("oat");
    let path = seq!['/'] + dir + seq!['/'] + file;
    let none = Seq::<char>::empty();
    let tail = dir.push('/') + file;
    assert(path =~= none.push('/') + tail);
    law_fields_are_parted_by_separators(none, '/', tail);
    law_fields_are_parted_by_separators(dir, '/', file);
    law_fields_are_parted_by_separators(file, '/', none);
    let fields = fields_of(path, '/');
    assert(fields =~= seq![none, dir, file]);
    reveal_with_fuel(parts_in, 4);
    let parts = path_parts(path);
    assert(parts =~= seq![dir, file]);
    let whole = parts.drop_last().push("oat"@);
    assert(whole =~= seq![dir, "oat"@]);
    assert(whole.drop_last() =~= seq![dir]);
    assert(seq![dir].drop_last() =~= Seq::<Seq<char>>::empty());
    reveal_with_fuel(path_text, 3);
    assert(path_text(whole) =~= seq!['/'] + dir + "/oat"@);
    let short = seq!['/'] + file;
    assert(short =~= none.push('/') + file);
    law_fields_are_parted_by_separators(none, '/', file);
    assert(fields_of(short, '/') =~= seq![none, file]);
    assert(path_parts(short) =~= seq![file]);
}

/// A name becomes one that can stand for a directory: letters and digits of ASCII, dots,
/// underscores and hyphens stay, and every other character becomes an underscore.
pub proof fn law_plain_names(name: Seq<char>, i: int)
    requires
        0 <= i < name.len(),
    ensures
        plain_name(name).len() == name.len(),
        ({
            let c = name[i];
            plain_name(name)[i] == (if ('a' <= c <= 'z') || ('A' <= c <= 'Z') || ('0' <= c <= '9')
                || c == '.' || c == '_' || c == '-' {
                c
            } else {
                '_'
            })
        }),
{
}

/// The packages of a user id are those that a line of `packages.list` gives it for; where there
/// is none, those that a line of the package manager gives it for.
pub proof fn law_packages_are_looked_up_in_turn(answers: Answers, uid: u32, pkg: Seq<char>)
    ensures
        packages_from(answers, uid).contains(pkg) <==> {
            let listed = answers(PackageQuery::PackagesList);
            let printed = answers(PackageQuery::ListPackages);
            ||| listed matches Some(text) && some_line_gives(text, false, pkg, uid)
            ||| (forall|other: Seq<char>|
                !(listed is Some && #[trigger] some_line_gives(listed->Some_0, false, other, uid)))
                && (printed matches Some(text) && some_line_gives(text, true, pkg, uid))
        },
{
    let listed = answers(PackageQuery::PackagesList);
    let printed = answers(PackageQuery::ListPackages);
    if let Some(text) = listed {
        let all = lines_of(text);
        let found = packages_in(all, all.len(), false, uid);
        assert forall|other: Seq<char>| found.contains(other) <==> #[trigger] some_line_gives(
            text,
            false,
            other,
            uid,
        ) by {
            law_packages_of_a_user(all, all.len(), false, uid, other);
        }
        assert(some_line_gives(text, false, pkg, uid) <==> found.contains(pkg));
        if found.len() > 0 {
            assert(found.contains(found[0]));
            assert(some_line_gives(text, false, found[0], uid));
        }
    }
    if let Some(text) = printed {
        law_packages_of_a_user(lines_of(text), lines_of(text).len(), true, uid, pkg);
    }
}

/// Some line of a text gives a package the user id.
pub open spec fn some_line_gives(text: Seq<char>, from_cmd: bool, pkg: Seq<char>, uid: u32) -> bool {
    exists|i: int|
        0 <= i < lines_of(text).len() && gives(#[trigger] lines_of(text)[i], from_cmd, pkg, uid)
}

/// A line of `cmd package list packages -U` that does not start with `package:`, or in which
/// `uid:` does not stand, names no package. Nor does a line of `packages.list` that is empty, is
/// a comment or is a single word.
pub proof fn law_lines_without_a_package(line: Seq<char>)
    ensures
        ({
            let s = trim_of(line);
            &&& s.len() < 8 || s.take(8) != "package:"@ ==> printed(line) is None
            &&& (forall|i: int|
                0 <= i && i + 4 <= s.len() ==> #[trigger] s.subrange(i, i + 4) != "uid:"@)
                ==> printed(line) is None
            &&& s.len() == 0 || s[0] == '#' || words_of(s).len() == 1 ==> listed(line) is None
        }),
{
    reveal_strlit("package:");
    reveal_strlit("uid:");
    let s = trim_of(line);
    if contains_text(s, "uid:"@) {
        let i = choose|i: int| occurs_at(s, "uid:"@, i);
        assert(s.subrange(i, i + 4) == "uid:"@);
    }
}

proof fn lemma_first_parts(w: Seq<Seq<char>>, part: Seq<char>, n: nat)
    requires
        n <= w.len(),
    ensures
        printed_parts(w.push(part), n) == printed_parts(w, n),
    decreases n,
{
    if n > 0 {
        lemma_first_parts(w, part, (n - 1) as nat);
        assert(w.push(part)[n - 1] == w[n - 1]);
    }
}

/// Of several words behind `package:` or `uid:` the last counts.
pub proof fn law_last_word_counts(w: Seq<Seq<char>>, word: Seq<char>, uid: u32)
    ensures
        ({
            let before = printed_parts(w, w.len());
            &&& printed_parts(w.push("package:"@ + word), w.len() + 1) == (Some(word), before.1)
            &&& printed_parts(w.push("uid:"@ + dec_text(uid as nat)), w.len() + 1) == (
                before.0,
                Some(uid),
            )
        }),
{
    reveal_strlit("package:");
    reveal_strlit("uid:");
    let number = dec_text(uid as nat);
    let (a, b) = ("package:"@ + word, "uid:"@ + number);
    lemma_first_parts(w, a, w.len());
    lemma_first_parts(w, b, w.len());
    law_numbers_are_read_back(uid as nat, u32::MAX as int);
    assert(a.take(8) =~= "package:"@ && a.skip(8) =~= word);
    assert(b.take(4) =~= "uid:"@ && b.skip(4) =~= number);
    assert(!has_prefix(b, "package:"@)) by {
        if has_prefix(b, "package:"@) {
            assert(b.take(8)[0] == 'u');
        }
    }
    assert(w.push(a)[w.len() as int] == a);
    assert(w.push(b)[w.len() as int] == b);
}

} // verus!
