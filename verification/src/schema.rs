//! The schema side of the library: the required/optional type mappings, the
//! line-oriented config grammar, and the parser that turns config text into a
//! [`Config`] or a [`ConfigError`] naming the first malformed line.

use vstd::prelude::*;
use vstd::string::StrSliceExecFns;
use vstd::string::StringExecFns;
use crate::strmap::{
    lemma_map_of_at, lemma_map_of_domain, lemma_map_of_push, lemma_map_of_update, map_of,
    unique_keys,
};
use crate::text::{
    find_char, first_occ, lemma_first_occ_bounds, spec_trim, spec_unquote, str_eq, trim, unquote,
};
use crate::vartype::{spec_from_str, VarType};

verus! {

/// A mapping from variable names to types, unique in its keys, iterated in
/// insertion order.
#[derive(Debug)]
pub struct TypeMap {
    entries: Vec<(String, VarType)>,
}

impl TypeMap {
    /// The entries as character sequences, in order.
    pub closed spec fn entries_view(&self) -> Seq<(Seq<char>, VarType)> {
        Seq::new(self.entries@.len(), |i: int| (self.entries@[i].0@, self.entries@[i].1))
    }

    /// No two entries share a key.
    pub open spec fn wf(&self) -> bool {
        unique_keys(self.entries_view())
    }

    /// An empty mapping.
    pub fn new() -> (r: TypeMap)
        ensures
            r.wf(),
            r@ == Map::<Seq<char>, VarType>::empty(),
            r.entries_view() == Seq::<(Seq<char>, VarType)>::empty(),
    {
        let r = TypeMap { entries: Vec::new() };
        proof {
            assert(r.entries_view() =~= Seq::<(Seq<char>, VarType)>::empty());
        }
        r
    }

    /// How many entries the mapping holds.
    pub fn len(&self) -> (n: usize)
        ensures
            n == self.entries_view().len(),
    {
        self.entries.len()
    }

    /// The key of the entry at position `i`.
    pub fn key_at(&self, i: usize) -> (k: &String)
        requires
            i < self.entries_view().len(),
        ensures
            k@ == self.entries_view()[i as int].0,
    {
        &self.entries[i].0
    }

    /// The type of the entry at position `i`.
    pub fn type_at(&self, i: usize) -> (t: VarType)
        requires
            i < self.entries_view().len(),
        ensures
            t == self.entries_view()[i as int].1,
    {
        self.entries[i].1
    }

    /// Position of the entry holding `key`, if any.
    fn position(&self, key: &str) -> (r: Option<usize>)
        ensures
            match r {
                Some(i) => i < self.entries_view().len() && self.entries_view()[i as int].0
                    == key@,
                None => forall|i: int|
                    0 <= i < self.entries_view().len() ==> self.entries_view()[i].0 != key@,
            },
    {
        let n = self.entries.len();
        let mut i: usize = 0;
        while i < n
            invariant
                0 <= i <= n,
                n == self.entries_view().len(),
                forall|j: int| 0 <= j < i ==> self.entries_view()[j].0 != key@,
            decreases n - i,
        {
            if str_eq(self.entries[i].0.as_str(), key) {
                return Some(i);
            }
            i = i + 1;
        }
        None
    }

    /// Stores `key` with type `t`; a later entry for the same key wins.
    pub fn insert(&mut self, key: String, t: VarType)
        requires
            old(self).wf(),
        ensures
            final(self).wf(),
            final(self)@ == old(self)@.insert(key@, t),
    {
        let ghost prev = self.entries_view();
        match self.position(key.as_str()) {
            Some(i) => {
                let ghost k = prev[i as int].0;
                self.entries[i] = (key, t);
                proof {
                    assert(self.entries_view() =~= prev.update(i as int, (k, t)));
                    lemma_map_of_update(prev, i as int, t);
                }
            },
            None => {
                self.entries.push((key, t));
                proof {
                    assert(self.entries_view() =~= prev.push((key@, t)));
                    lemma_map_of_push(prev, key@, t);
                    assert forall|x: int, y: int|
                        0 <= x < y < self.entries_view().len() implies self.entries_view()[x].0
                        != self.entries_view()[y].0 by {
                        if y < prev.len() {
                            assert(self.entries_view()[x] == prev[x]);
                            assert(self.entries_view()[y] == prev[y]);
                        } else {
                            assert(self.entries_view()[x] == prev[x]);
                        }
                    }
                }
            },
        }
    }

    /// The type stored under `key`, if any.
    pub fn get(&self, key: &str) -> (r: Option<VarType>)
        requires
            self.wf(),
        ensures
            r == if self@.contains_key(key@) {
                Some(self@[key@])
            } else {
                None::<VarType>
            },
    {
        match self.position(key) {
            Some(i) => {
                proof {
                    lemma_map_of_at(self.entries_view(), i as int);
                }
                Some(self.entries[i].1)
            },
            None => {
                proof {
                    lemma_map_of_domain(self.entries_view(), key@);
                }
                None
            },
        }
    }
}

impl View for TypeMap {
    type V = Map<Seq<char>, VarType>;

    /// The mapping as a map, a later entry for a key winning.
    open spec fn view(&self) -> Map<Seq<char>, VarType> {
        map_of(self.entries_view())
    }
}

/// The section an assignment line falls under: one of the two recognized
/// sections, or none (no section seen yet, or an unrecognized one).
#[derive(Debug, Clone, Copy, PartialEq, Eq, Structural)]
pub enum Section {
    Neither,
    Required,
    Optional,
}

/// Why a config text was rejected (ghost form).
pub enum SpecErrorKind {
    InvalidType { key: Seq<char>, raw: Seq<char> },
    OutsideSection,
    MissingEquals,
}

/// A parse failure with its 1-based line number (ghost form).
pub struct SpecParseError {
    pub line: int,
    pub kind: SpecErrorKind,
}

/// Why a config text was rejected: an assignment whose value names no
/// recognized type, an assignment outside the two recognized sections, or a
/// non-blank line that is neither a section header nor an assignment.
#[derive(Debug, Clone)]
pub enum ConfigErrorKind {
    InvalidType { key: String, raw: String },
    OutsideSection,
    MissingEquals,
}

/// A parse failure with the 1-based number of the line that caused it.
#[derive(Debug, Clone)]
pub struct ConfigError {
    pub line: usize,
    pub kind: ConfigErrorKind,
}

impl View for ConfigErrorKind {
    type V = SpecErrorKind;

    open spec fn view(&self) -> SpecErrorKind {
        match self {
            ConfigErrorKind::InvalidType { key, raw } => SpecErrorKind::InvalidType {
                key: key@,
                raw: raw@,
            },
            ConfigErrorKind::OutsideSection => SpecErrorKind::OutsideSection,
            ConfigErrorKind::MissingEquals => SpecErrorKind::MissingEquals,
        }
    }
}

impl View for ConfigError {
    type V = SpecParseError;

    open spec fn view(&self) -> SpecParseError {
        SpecParseError { line: self.line as int, kind: self.kind@ }
    }
}

/// The message of an error, as the diagnostics print it.
pub open spec fn spec_error_message(kind: SpecErrorKind) -> Seq<char> {
    match kind {
        SpecErrorKind::InvalidType { key, raw } => "invalid type '"@ + raw + "' for key '"@ + key
            + "'"@,
        SpecErrorKind::OutsideSection => "assignment outside of [required] or [optional]"@,
        SpecErrorKind::MissingEquals => "invalid line format"@,
    }
}

impl ConfigError {
    /// Renders the failure, without its line number.
    pub fn message(&self) -> (r: String)
        ensures
            r@ == spec_error_message(self@.kind),
    {
        match &self.kind {
            ConfigErrorKind::InvalidType { key, raw } => {
                let mut s = "invalid type '".to_owned();
                s.append(raw.as_str());
                s.append("' for key '");
                s.append(key.as_str());
                s.append("'");
                s
            },
            ConfigErrorKind::OutsideSection => "assignment outside of [required] or [optional]"
                .to_owned(),
            ConfigErrorKind::MissingEquals => "invalid line format".to_owned(),
        }
    }
}

/// A parsed schema: the required and the optional mapping. A name may stand
/// in both; the validation engine checks the required reading first.
#[derive(Debug)]
pub struct Config {
    pub required: TypeMap,
    pub optional: TypeMap,
}

impl Config {
    /// Both mappings are unique in their keys.
    pub open spec fn wf(&self) -> bool {
        self.required.wf() && self.optional.wf()
    }
}

/// Config text up to its first `#`, where an inline comment starts. The cut
/// does not honor quoting: a `#` inside a quoted value still starts a
/// comment.
pub open spec fn cut_comment(t: Seq<char>) -> Seq<char> {
    t.take(first_occ(t, 0, '#'))
}

/// A line's trailing carriage return removed, as line splitting does for
/// `\r\n` endings.
pub open spec fn strip_cr(line: Seq<char>) -> Seq<char> {
    if line.len() > 0 && line.last() == '\r' {
        line.drop_last()
    } else {
        line
    }
}

/// The lines of `s` from position `i` on, given the pending line text and
/// the lines already split off. Lines end at `\n` or `\r\n`; a last line
/// without a line ending still counts, an empty one does not.
pub open spec fn lines_from(s: Seq<char>, i: int, cur: Seq<char>, acc: Seq<Seq<char>>) -> Seq<
    Seq<char>,
>
    decreases s.len() - i,
{
    if i < 0 || i >= s.len() {
        if cur.len() > 0 {
            acc.push(cur)
        } else {
            acc
        }
    } else if s[i] == '\n' {
        lines_from(s, i + 1, Seq::empty(), acc.push(strip_cr(cur)))
    } else {
        lines_from(s, i + 1, cur.push(s[i]), acc)
    }
}

/// The lines of a whole config text.
pub open spec fn spec_lines(s: Seq<char>) -> Seq<Seq<char>> {
    lines_from(s, 0, Seq::empty(), Seq::empty())
}

/// Lines already split off stay as they are: they form a prefix of the
/// final line list.
proof fn lemma_lines_from_prefix(s: Seq<char>, i: int, cur: Seq<char>, acc: Seq<Seq<char>>)
    ensures
        acc.len() <= lines_from(s, i, cur, acc).len(),
        forall|k: int| 0 <= k < acc.len() ==> lines_from(s, i, cur, acc)[k] == acc[k],
    decreases s.len() - i,
{
    if 0 <= i < s.len() {
        if s[i] == '\n' {
            let acc2 = acc.push(strip_cr(cur));
            lemma_lines_from_prefix(s, i + 1, Seq::empty(), acc2);
            assert forall|k: int| 0 <= k < acc.len() implies lines_from(s, i, cur, acc)[k]
                == acc[k] by {
                assert(lines_from(s, i, cur, acc)[k] == acc2[k]);
                assert(acc2[k] == acc[k]);
            }
        } else {
            lemma_lines_from_prefix(s, i + 1, cur.push(s[i]), acc);
        }
    }
}

/// The section a bracketed header names.
pub open spec fn spec_section_of(name: Seq<char>) -> Section {
    if name == "required"@ {
        Section::Required
    } else if name == "optional"@ {
        Section::Optional
    } else {
        Section::Neither
    }
}

/// What one config line means (ghost form).
pub enum SpecLineAction {
    Skip,
    SetSection(Section),
    Assign { key: Seq<char>, ty: VarType },
    Fail(SpecErrorKind),
}

/// What one config line means: after trimming, a blank or comment line is
/// skipped; the text up to any inline `#` is re-trimmed; a `[…]` line sets
/// the section; a line with `=` assigns a type to a key if its value names
/// one; anything else is malformed.
pub open spec fn spec_line_action(raw: Seq<char>) -> SpecLineAction {
    let t = spec_trim(raw);
    if t.len() == 0 || t[0] == '#' {
        SpecLineAction::Skip
    } else {
        let t2 = spec_trim(cut_comment(t));
        if t2.len() == 0 {
            SpecLineAction::Skip
        } else if t2[0] == '[' && t2.last() == ']' {
            SpecLineAction::SetSection(spec_section_of(t2.subrange(1, t2.len() - 1)))
        } else {
            let p = first_occ(t2, 0, '=');
            if p == t2.len() {
                SpecLineAction::Fail(SpecErrorKind::MissingEquals)
            } else {
                let key = spec_trim(t2.take(p));
                let raw_val = spec_unquote(spec_trim(t2.skip(p + 1)));
                match spec_from_str(raw_val) {
                    Some(ty) => SpecLineAction::Assign { key, ty },
                    None => SpecLineAction::Fail(
                        SpecErrorKind::InvalidType { key, raw: raw_val },
                    ),
                }
            }
        }
    }
}

/// What one config line means (runtime form).
enum LineAction {
    Skip,
    SetSection(Section),
    Assign(String, VarType),
    Fail(ConfigErrorKind),
}

impl View for LineAction {
    type V = SpecLineAction;

    closed spec fn view(&self) -> SpecLineAction {
        match self {
            LineAction::Skip => SpecLineAction::Skip,
            LineAction::SetSection(sec) => SpecLineAction::SetSection(*sec),
            LineAction::Assign(key, ty) => SpecLineAction::Assign { key: key@, ty: *ty },
            LineAction::Fail(kind) => SpecLineAction::Fail(kind@),
        }
    }
}

/// Reads one config line.
fn classify_line(line: &str) -> (a: LineAction)
    ensures
        a@ == spec_line_action(line@),
{
    let t = trim(line);
    let tn = t.unicode_len();
    if tn == 0 {
        return LineAction::Skip;
    }
    if t.get_char(0) == '#' {
        return LineAction::Skip;
    }
    proof {
        lemma_first_occ_bounds(t@, 0, '#');
    }
    let h = find_char(t, '#');
    let before = t.substring_char(0, h);
    proof {
        assert(before@ =~= cut_comment(t@));
    }
    let t2 = trim(before);
    let n2 = t2.unicode_len();
    if n2 == 0 {
        return LineAction::Skip;
    }
    if t2.get_char(0) == '[' && t2.get_char(n2 - 1) == ']' {
        let name = t2.substring_char(1, n2 - 1);
        let sec = if str_eq(name, "required") {
            Section::Required
        } else if str_eq(name, "optional") {
            Section::Optional
        } else {
            Section::Neither
        };
        return LineAction::SetSection(sec);
    }
    proof {
        lemma_first_occ_bounds(t2@, 0, '=');
    }
    let p = find_char(t2, '=');
    if p == n2 {
        return LineAction::Fail(ConfigErrorKind::MissingEquals);
    }
    let key = trim(t2.substring_char(0, p));
    proof {
        assert(t2@.subrange(0, p as int) =~= t2@.take(p as int));
    }
    let vraw = unquote(trim(t2.substring_char(p + 1, n2)));
    proof {
        assert(t2@.subrange(p + 1, n2 as int) =~= t2@.skip(p + 1));
    }
    match VarType::from_str(vraw) {
        Some(ty) => LineAction::Assign(key.to_owned(), ty),
        None => LineAction::Fail(
            ConfigErrorKind::InvalidType { key: key.to_owned(), raw: vraw.to_owned() },
        ),
    }
}

/// The outcome of parsing the lines from index `idx` on, starting in
/// section `sec` with the mappings read so far: the first malformed line
/// aborts parsing with its 1-based number.
pub open spec fn spec_parse_from(
    lines: Seq<Seq<char>>,
    idx: int,
    sec: Section,
    req: Map<Seq<char>, VarType>,
    opt: Map<Seq<char>, VarType>,
) -> Result<(Map<Seq<char>, VarType>, Map<Seq<char>, VarType>), SpecParseError>
    decreases lines.len() - idx,
{
    if idx < 0 || idx >= lines.len() {
        Ok((req, opt))
    } else {
        match spec_line_action(lines[idx]) {
            SpecLineAction::Skip => spec_parse_from(lines, idx + 1, sec, req, opt),
            SpecLineAction::SetSection(sec2) => spec_parse_from(lines, idx + 1, sec2, req, opt),
            SpecLineAction::Assign { key, ty } => match sec {
                Section::Required => spec_parse_from(lines, idx + 1, sec, req.insert(key, ty), opt),
                Section::Optional => spec_parse_from(lines, idx + 1, sec, req, opt.insert(key, ty)),
                Section::Neither => Err(
                    SpecParseError { line: idx + 1, kind: SpecErrorKind::OutsideSection },
                ),
            },
            SpecLineAction::Fail(kind) => Err(SpecParseError { line: idx + 1, kind }),
        }
    }
}

/// The outcome of parsing a whole config text.
pub open spec fn spec_parse_config(s: Seq<char>) -> Result<
    (Map<Seq<char>, VarType>, Map<Seq<char>, VarType>),
    SpecParseError,
> {
    spec_parse_from(spec_lines(s), 0, Section::Neither, Map::empty(), Map::empty())
}

/// The config `c` is what parsing `text` succeeds with.
pub open spec fn parse_ok(c: Config, text: Seq<char>) -> bool {
    spec_parse_config(text) == Ok::<(Map<Seq<char>, VarType>, Map<Seq<char>, VarType>),
        SpecParseError,
    >((c.required@, c.optional@))
}

/// The error `e` is what parsing `text` fails with.
pub open spec fn parse_err(e: SpecParseError, text: Seq<char>) -> bool {
    spec_parse_config(text) == Err::<(Map<Seq<char>, VarType>, Map<Seq<char>, VarType>),
        SpecParseError,
    >(e)
}

/// Parses config text into a schema, or reports the first malformed line.
pub fn parse_config(content: &str) -> (r: Result<Config, ConfigError>)
    ensures
        match r {
            Ok(c) => c.wf() && parse_ok(c, content@),
            Err(e) => parse_err(e@, content@),
        },
{
    let n = content.unicode_len();
    let mut i: usize = 0;
    let mut lineno: usize = 0;
    let mut cur = String::new();
    let ghost mut done: Seq<Seq<char>> = Seq::empty();
    let mut sec = Section::Neither;
    let mut req = TypeMap::new();
    let mut opt = TypeMap::new();
    proof {
        assert(spec_lines(content@) == lines_from(content@, 0, cur@, done));
    }
    while i < n
        invariant
            0 <= i <= n,
            n == content@.len(),
            req.wf(),
            opt.wf(),
            done.len() == lineno,
            lineno + cur@.len() <= i,
            lines_from(content@, i as int, cur@, done) == spec_lines(content@),
            spec_parse_from(spec_lines(content@), lineno as int, sec, req@, opt@)
                == spec_parse_config(content@),
        decreases n - i,
    {
        let c = content.get_char(i);
        if c == '\n' {
            let ghost line_v = strip_cr(cur@);
            let cl = cur.unicode_len();
            let ends_cr = cl > 0 && cur.as_str().get_char(cl - 1) == '\r';
            let action = if ends_cr {
                let line = cur.as_str().substring_char(0, cl - 1);
                proof {
                    assert(line@ =~= line_v);
                }
                classify_line(line)
            } else {
                classify_line(cur.as_str())
            };
            proof {
                assert(lines_from(content@, i as int, cur@, done) == lines_from(
                    content@,
                    i + 1,
                    Seq::empty(),
                    done.push(line_v),
                ));
                lemma_lines_from_prefix(content@, i + 1, Seq::empty(), done.push(line_v));
                assert(spec_lines(content@)[lineno as int] == done.push(line_v)[lineno as int]);
                assert(spec_lines(content@)[lineno as int] == line_v);
            }
            match action {
                LineAction::Skip => {},
                LineAction::SetSection(s2) => {
                    sec = s2;
                },
                LineAction::Assign(key, ty) => {
                    match sec {
                        Section::Required => req.insert(key, ty),
                        Section::Optional => opt.insert(key, ty),
                        Section::Neither => {
                            return Err(
                                ConfigError {
                                    line: lineno + 1,
                                    kind: ConfigErrorKind::OutsideSection,
                                },
                            );
                        },
                    }
                },
                LineAction::Fail(kind) => {
                    return Err(ConfigError { line: lineno + 1, kind });
                },
            }
            cur = String::new();
            proof {
                done = done.push(line_v);
                assert(cur@ =~= Seq::<char>::empty());
            }
            lineno = lineno + 1;
        } else {
            let ghost prev_cur = cur@;
            cur.append(content.substring_char(i, i + 1));
            proof {
                assert(cur@ =~= prev_cur.push(content@[i as int]));
            }
        }
        i = i + 1;
    }
    if cur.unicode_len() > 0 {
        proof {
            assert(spec_lines(content@) == done.push(cur@));
            assert(spec_lines(content@)[lineno as int] == cur@);
            assert(spec_lines(content@).len() == lineno + 1);
        }
        let action = classify_line(cur.as_str());
        let ghost lines_v = spec_lines(content@);
        let ghost act = action@;
        let ghost sec0 = sec;
        let ghost req0 = req@;
        let ghost opt0 = opt@;
        match action {
            LineAction::Skip => {},
            LineAction::SetSection(_) => {},
            LineAction::Assign(key, ty) => {
                match sec {
                    Section::Required => req.insert(key, ty),
                    Section::Optional => opt.insert(key, ty),
                    Section::Neither => {
                        return Err(
                            ConfigError { line: lineno + 1, kind: ConfigErrorKind::OutsideSection },
                        );
                    },
                }
            },
            LineAction::Fail(kind) => {
                return Err(ConfigError { line: lineno + 1, kind });
            },
        }
        proof {
            assert(spec_line_action(lines_v[lineno as int]) == act);
            assert forall|s2: Section|
                #[trigger] spec_parse_from(lines_v, lineno + 1, s2, req@, opt@) == Ok::<
                    (Map<Seq<char>, VarType>, Map<Seq<char>, VarType>),
                    SpecParseError,
                >((req@, opt@)) by {}
            match act {
                SpecLineAction::Skip => {
                    assert(spec_parse_from(lines_v, lineno as int, sec0, req0, opt0)
                        == spec_parse_from(lines_v, lineno + 1, sec0, req0, opt0));
                },
                SpecLineAction::SetSection(s2) => {
                    assert(spec_parse_from(lines_v, lineno as int, sec0, req0, opt0)
                        == spec_parse_from(lines_v, lineno + 1, s2, req0, opt0));
                },
                SpecLineAction::Assign { key, ty } => {
                    if sec0 == Section::Required {
                        assert(spec_parse_from(lines_v, lineno as int, sec0, req0, opt0)
                            == spec_parse_from(lines_v, lineno + 1, sec0, req0.insert(key, ty), opt0));
                        assert(req@ == req0.insert(key, ty));
                    } else {
                        assert(sec0 == Section::Optional);
                        assert(spec_parse_from(lines_v, lineno as int, sec0, req0, opt0)
                            == spec_parse_from(lines_v, lineno + 1, sec0, req0, opt0.insert(key, ty)));
                        assert(opt@ == opt0.insert(key, ty));
                    }
                },
                SpecLineAction::Fail(_) => {},
            }
        }
    } else {
        proof {
            assert(spec_lines(content@) == done);
            assert(spec_lines(content@).len() == lineno);
        }
    }
    proof {
        assert(spec_parse_config(content@) == Ok::<
            (Map<Seq<char>, VarType>, Map<Seq<char>, VarType>),
            SpecParseError,
        >((req@, opt@)));
    }
    Ok(Config { required: req, optional: opt })
}

/// Law: config parsing is deterministic — parsing the same text twice
/// yields schemas with identical required and optional contents.
pub proof fn lemma_parse_config_idempotent(text: Seq<char>, c1: Config, c2: Config)
    requires
        parse_ok(c1, text),
        parse_ok(c2, text),
    ensures
        c1.required@ == c2.required@,
        c1.optional@ == c2.optional@,
{
}

} // verus!
