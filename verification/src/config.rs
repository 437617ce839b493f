//! Key discovery and parsing.
//!
//! Keys come from, in order of precedence:
//!   1. a keys file named on the command line
//!   2. `OLLAMUX_KEYS` (newlines or commas separate keys)
//!   3. `$XDG_CONFIG_HOME/ollamux/keys`, by default `~/.config/ollamux/keys`
//!
//! One key per line. `KEY:N` sets the key's concurrency (the number of cloud
//! models that its account may run at once: free=1, pro=3, max=10). Blank
//! lines are skipped, as is what follows a `#` at the start of a line or after
//! white space; white space around a key does not count.

use vstd::prelude::*;
use vstd::string::*;

use crate::text;

verus! {

/// Concurrency of a key without `:N`: what a Pro account may run.
pub const DEFAULT_CONCURRENCY: u32 = 3;

/// An API key and its concurrency, as a mathematical value.
pub type Entry = (Seq<char>, u32);

/// The keys to serve with.
#[derive(Debug)]
pub struct Keys {
    /// (secret, concurrency slots), one per key.
    pub entries: Vec<(String, u32)>,
    /// The file they were read from; empty if none was.
    pub source: String,
}

/// Why there are no keys.
#[derive(Debug)]
pub enum ParseError {
    /// There is no keys file at this path, and nothing else names keys.
    NotFound(String),
    /// A line parsed but cannot be used.
    BadLine(String),
    /// `KEY:N` with an `N` that does not fit.
    BadConcurrency { line: String, tail: String },
    /// A source of keys holds none.
    Empty(String),
    /// Reading the keys file failed.
    Io(String),
}

/// Where keys are to be read from.
#[derive(Debug)]
pub enum Origin {
    /// The value of `OLLAMUX_KEYS`.
    Env(String),
    /// A file; `explicit` if it was named on the command line.
    File { path: String, explicit: bool },
}

/// What reading a keys file gave.
#[derive(Debug)]
pub enum FileRead {
    /// Nothing was read: the keys are not in a file.
    Unread,
    /// Its text.
    Text(String),
    /// There is no such file; the system's message.
    Missing(String),
    /// Another failure; the system's message.
    Failed(String),
}

// ---------------------------------------------------------------------------
// Meaning
// ---------------------------------------------------------------------------

/// A `ParseError`, as a mathematical value.
#[verifier::ext_equal]
pub enum ErrorView {
    NotFound(Seq<char>),
    BadLine(Seq<char>),
    BadConcurrency { line: Seq<char>, tail: Seq<char> },
    Empty(Seq<char>),
    Io(Seq<char>),
}

impl View for ParseError {
    type V = ErrorView;

    open spec fn view(&self) -> ErrorView {
        match self {
            ParseError::NotFound(path) => ErrorView::NotFound(path@),
            ParseError::BadLine(line) => ErrorView::BadLine(line@),
            ParseError::BadConcurrency { line, tail } => ErrorView::BadConcurrency {
                line: line@,
                tail: tail@,
            },
            ParseError::Empty(msg) => ErrorView::Empty(msg@),
            ParseError::Io(msg) => ErrorView::Io(msg@),
        }
    }
}

impl View for Keys {
    type V = Seq<Entry>;

    open spec fn view(&self) -> Seq<Entry> {
        entry_views(self.entries@)
    }
}

pub open spec fn entry_views(entries: Seq<(String, u32)>) -> Seq<Entry> {
    entries.map_values(|e: (String, u32)| (e.0@, e.1))
}

/// The last four characters of `key`.
pub open spec fn suffix_of(key: Seq<char>) -> Seq<char> {
    if key.len() <= 4 {
        key
    } else {
        key.skip(key.len() - 4)
    }
}

/// Where, at or after `i`, a comment starts in `s`; its length if nowhere.
pub open spec fn comment_start(s: Seq<char>, i: int) -> int
    decreases s.len() - i,
{
    if i >= s.len() {
        s.len() as int
    } else if s[i] == '#' && (i <= 0 || text::is_white(s[i - 1])) {
        i
    } else {
        comment_start(s, i + 1)
    }
}

/// What counts of a line: no comment, no white space around it.
pub open spec fn significant(line: Seq<char>) -> Seq<char> {
    let s = text::trimmed(line);
    text::trimmed(s.take(comment_start(s, 0)))
}

/// What a line says.
#[verifier::ext_equal]
pub enum LineView {
    Blank,
    Key { key: Seq<char>, concurrency: u32 },
    BadConcurrency { line: Seq<char>, tail: Seq<char> },
}

/// The meaning of `line`. `KEY:N` is split at the last colon, and only where
/// `N` is nothing but digits: any other colon is part of the key.
pub open spec fn parse_line(line: Seq<char>) -> LineView {
    let s = significant(line);
    let at = text::last_of(s, ':');
    let tail = s.skip(at + 1);
    if s.len() == 0 {
        LineView::Blank
    } else if at > 0 && tail.len() > 0 && text::all_digits(tail) {
        let n = text::decimal_value(tail);
        if n > u32::MAX {
            LineView::BadConcurrency { line: s, tail }
        } else if n < 1 {
            LineView::Key { key: text::trimmed(s.take(at)), concurrency: 1 }
        } else {
            LineView::Key { key: text::trimmed(s.take(at)), concurrency: n as u32 }
        }
    } else {
        LineView::Key { key: s, concurrency: DEFAULT_CONCURRENCY }
    }
}

/// `key` is among `entries`.
pub open spec fn has_key(entries: Seq<Entry>, key: Seq<char>) -> bool {
    exists|i: int| 0 <= i < entries.len() && (#[trigger] entries[i]).0 == key
}

/// `done` followed by the entries of `lines`, or the first error.
pub open spec fn parse_lines(lines: Seq<Seq<char>>, done: Seq<Entry>) -> Result<
    Seq<Entry>,
    ErrorView,
>
    decreases lines.len(),
{
    if lines.len() == 0 {
        Ok(done)
    } else {
        match parse_line(lines[0]) {
            LineView::Blank => parse_lines(lines.skip(1), done),
            LineView::BadConcurrency { line, tail } => Err(
                ErrorView::BadConcurrency { line, tail },
            ),
            LineView::Key { key, concurrency } => if has_key(done, key) {
                Err(ErrorView::BadLine("duplicate key entry: …"@ + suffix_of(key)))
            } else {
                parse_lines(lines.skip(1), done.push((key, concurrency)))
            },
        }
    }
}

/// The keys that `text` lists, one per line.
pub open spec fn parse_text(text: Seq<char>) -> Result<Seq<Entry>, ErrorView> {
    parse_lines(text::pieces(text, '\n'), seq![])
}

/// `text` with commas made line ends.
pub open spec fn commas_split(text: Seq<char>) -> Seq<char> {
    text.map_values(
        |c: char|
            if c == ',' {
                '\n'
            } else {
                c
            },
    )
}

/// `parsed`, unless it holds no key at all: then an error that says `msg`.
pub open spec fn nonempty(
    parsed: Result<Seq<Entry>, ErrorView>,
    msg: Seq<char>,
) -> Result<Seq<Entry>, ErrorView> {
    match parsed {
        Ok(entries) if entries.len() == 0 => Err(ErrorView::Empty(msg)),
        _ => parsed,
    }
}

/// A loading result, as a mathematical value.
pub open spec fn outcome(r: Result<Keys, ParseError>) -> Result<Seq<Entry>, ErrorView> {
    match r {
        Ok(keys) => Ok(keys@),
        Err(e) => Err(e@),
    }
}

/// `rel` below directory `base`.
pub open spec fn joined(base: Seq<char>, rel: Seq<char>) -> Seq<char> {
    if base.len() == 0 || base.last() == '/' {
        base + rel
    } else {
        base + "/"@ + rel
    }
}

/// An `Origin`, as a mathematical value.
#[verifier::ext_equal]
pub enum OriginView {
    Env(Seq<char>),
    File { path: Seq<char>, explicit: bool },
}

impl View for Origin {
    type V = OriginView;

    open spec fn view(&self) -> OriginView {
        match self {
            Origin::Env(raw) => OriginView::Env(raw@),
            Origin::File { path, explicit } => OriginView::File { path: path@, explicit: *explicit },
        }
    }
}

/// The view of an optional string slice.
pub open spec fn opt_view(s: Option<&str>) -> Option<Seq<char>> {
    match s {
        Some(s) => Some(s@),
        None => None,
    }
}

/// Where keys are to be read from, given the path on the command line and the
/// variables `OLLAMUX_KEYS`, `XDG_CONFIG_HOME` and `HOME`.
pub open spec fn origin(
    explicit: Option<Seq<char>>,
    keys: Option<Seq<char>>,
    xdg: Option<Seq<char>>,
    home: Option<Seq<char>>,
) -> Result<OriginView, ErrorView> {
    if let Some(path) = explicit {
        Ok(OriginView::File { path, explicit: true })
    } else if let Some(raw) = keys {
        Ok(OriginView::Env(raw))
    } else if xdg is Some && xdg->0.len() > 0 {
        Ok(OriginView::File { path: joined(xdg->0, "ollamux/keys"@), explicit: false })
    } else if let Some(home) = home {
        Ok(OriginView::File { path: joined(home, ".config/ollamux/keys"@), explicit: false })
    } else {
        Err(ErrorView::Empty("HOME not set and OLLAMUX_KEYS unset; cannot locate keys"@))
    }
}

/// The keys from `origin`, whose file reads as `file`.
pub open spec fn load_from(origin: OriginView, file: FileRead) -> Result<Seq<Entry>, ErrorView> {
    match origin {
        OriginView::Env(raw) => nonempty(
            parse_text(commas_split(raw)),
            "OLLAMUX_KEYS is set but empty"@,
        ),
        OriginView::File { path, explicit } => match file {
            FileRead::Text(t) => nonempty(
                parse_text(t@),
                "keys file "@ + path + " has no keys"@,
            ),
            FileRead::Missing(msg) => if explicit {
                Err(ErrorView::Io(msg@))
            } else {
                Err(ErrorView::NotFound(path))
            },
            FileRead::Failed(msg) => Err(ErrorView::Io(msg@)),
            FileRead::Unread => Err(ErrorView::NotFound(path)),
        },
    }
}

/// What `e` says to the user.
pub open spec fn error_message(e: ErrorView) -> Seq<char> {
    match e {
        ErrorView::NotFound(path) => "no keys found: set OLLAMUX_KEYS or create "@ + path
            + " (one API key per line)"@,
        ErrorView::BadLine(line) => "unparseable key line: "@ + text::debug_form(line),
        ErrorView::BadConcurrency { line, tail } => "invalid concurrency "@ + text::debug_form(tail)
            + " in key line (want `KEY:N`, N = 1..=u32::MAX): "@ + text::debug_form(line),
        ErrorView::Empty(msg) => "no keys: "@ + msg,
        ErrorView::Io(msg) => "reading keys: "@ + msg,
    }
}

// ---------------------------------------------------------------------------
// Parsing
// ---------------------------------------------------------------------------

/// The last four characters of `key`: what may be shown of a secret.
pub fn suffix(key: &str) -> (r: String)
    ensures
        r@ == suffix_of(key@),
{
    let n: usize = key.unicode_len();
    let from: usize = if n <= 4 {
        0
    } else {
        n - 4
    };
    assert(key@.subrange(from as int, n as int) =~= suffix_of(key@));
    key.substring_char(from, n).to_owned()
}

/// What counts of a line.
fn strip_line<'a>(line: &'a str) -> (r: &'a str)
    ensures
        r@ == significant(line@),
{
    let s = text::trim(line);
    let cs = text::chars_of(s);
    let mut i: usize = 0;
    while i < cs.len() && !(cs[i] == '#' && (i == 0 || text::white(cs[i - 1])))
        invariant
            cs@ == s@,
            i <= cs@.len(),
            comment_start(s@, 0) == comment_start(s@, i as int),
        decreases cs@.len() - i,
    {
        i = i + 1;
    }
    assert(s@.subrange(0, i as int) =~= s@.take(i as int));
    text::trim(s.substring_char(0, i))
}

/// What one line says: nothing, or a key with its concurrency.
fn read_line(line: &str) -> (r: Result<Option<(String, u32)>, ParseError>)
    ensures
        match r {
            Ok(None) => parse_line(line@) == LineView::Blank,
            Ok(Some(e)) => parse_line(line@) == (LineView::Key { key: e.0@, concurrency: e.1 }),
            Err(e) => e is BadConcurrency && parse_line(line@) == (LineView::BadConcurrency {
                line: e->BadConcurrency_line@,
                tail: e->tail@,
            }),
        },
{
    let s = strip_line(line);
    let len: usize = s.unicode_len();
    if len == 0 {
        return Ok(None);
    }
    if let Some(at) = text::rfind(s, ':') {
        let tail = s.substring_char(at + 1, len);
        assert(tail@ =~= s@.skip(at + 1));
        if at > 0 && tail.unicode_len() > 0 && text::digits_only(tail) {
            let key = text::trim(s.substring_char(0, at));
            assert(s@.subrange(0, at as int) =~= s@.take(at as int));
            return match text::digits_value(tail, u32::MAX as u64) {
                Some(n) => Ok(
                    Some(
                        (
                            key.to_owned(),
                            if n < 1 {
                                1
                            } else {
                                n as u32
                            },
                        ),
                    ),
                ),
                None => Err(
                    ParseError::BadConcurrency { line: s.to_owned(), tail: tail.to_owned() },
                ),
            };
        }
    }
    Ok(Some((s.to_owned(), DEFAULT_CONCURRENCY)))
}

/// Whether `key` is among `entries`.
fn holds_key(entries: &Vec<(String, u32)>, key: &str) -> (r: bool)
    ensures
        r == has_key(entry_views(entries@), key@),
{
    let mut i: usize = 0;
    while i < entries.len()
        invariant
            i <= entries@.len(),
            forall|j: int| 0 <= j < i ==> (#[trigger] entry_views(entries@)[j]).0 != key@,
        decreases entries@.len() - i,
    {
        if text::same(entries[i].0.as_str(), key) {
            assert(entry_views(entries@)[i as int].0 == key@);
            return true;
        }
        i = i + 1;
    }
    false
}

/// `text` with commas made line ends.
fn split_commas(text: &str) -> (r: String)
    ensures
        r@ == commas_split(text@),
{
    let cs = text::chars_of(text);
    let mut r = String::new();
    let mut i: usize = 0;
    while i < cs.len()
        invariant
            cs@ == text@,
            i <= cs@.len(),
            r@ == commas_split(text@.take(i as int)),
        decreases cs@.len() - i,
    {
        let c = if cs[i] == ',' {
            '\n'
        } else {
            cs[i]
        };
        r.push(c);
        assert(commas_split(text@.take(i + 1)) =~= commas_split(text@.take(i as int)).push(c));
        i = i + 1;
    }
    assert(text@.take(text@.len() as int) =~= text@);
    r
}

/// Where keys are to be read from, given the path on the command line and the
/// variables `OLLAMUX_KEYS`, `XDG_CONFIG_HOME` and `HOME`.
pub fn locate(
    explicit: Option<&str>,
    keys: Option<&str>,
    xdg: Option<&str>,
    home: Option<&str>,
) -> (r: Result<Origin, ParseError>)
    ensures
        match r {
            Ok(o) => origin(opt_view(explicit), opt_view(keys), opt_view(xdg), opt_view(home)) == Ok::<
                OriginView,
                ErrorView,
            >(o@),
            Err(e) => origin(opt_view(explicit), opt_view(keys), opt_view(xdg), opt_view(home))
                == Err::<OriginView, ErrorView>(e@),
        },
{
    if let Some(path) = explicit {
        return Ok(Origin::File { path: path.to_owned(), explicit: true });
    }
    if let Some(raw) = keys {
        return Ok(Origin::Env(raw.to_owned()));
    }
    if let Some(dir) = xdg {
        if !dir.is_empty() {
            return Ok(Origin::File { path: join(dir, "ollamux/keys"), explicit: false });
        }
    }
    match home {
        Some(dir) => Ok(Origin::File { path: join(dir, ".config/ollamux/keys"), explicit: false }),
        None => Err(
            ParseError::Empty(
                "HOME not set and OLLAMUX_KEYS unset; cannot locate keys".to_owned(),
            ),
        ),
    }
}

/// `rel` below directory `base`.
fn join(base: &str, rel: &str) -> (r: String)
    ensures
        r@ == joined(base@, rel@),
{
    let n: usize = base.unicode_len();
    let mut r = base.to_owned();
    if n > 0 && base.get_char(n - 1) != '/' {
        r.append("/");
    }
    r.append(rel);
    r
}

impl Keys {
    /// The keys from `origin`. Where that is a file, `file` is what reading it
    /// gave. A source without any key is an error: it is almost certainly a
    /// mistake, and every request would be refused.
    pub fn load(origin: Origin, file: FileRead) -> (r: Result<Keys, ParseError>)
        ensures
            outcome(r) == load_from(origin@, file),
            r matches Ok(keys) ==> keys.source@ == match origin@ {
                OriginView::Env(_) => seq![],
                OriginView::File { path, .. } => path,
            },
    {
        match origin {
            Origin::Env(raw) => {
                let text = split_commas(raw.as_str());
                match Keys::parse(text.as_str()) {
                    Ok(keys) => Keys::require_nonempty(keys, "OLLAMUX_KEYS is set but empty"),
                    Err(e) => Err(e),
                }
            },
            Origin::File { path, explicit } => match file {
                FileRead::Text(text) => {
                    let mut msg = "keys file ".to_owned();
                    msg.append(path.as_str());
                    msg.append(" has no keys");
                    match Keys::parse(text.as_str()) {
                        Ok(keys) => Keys::require_nonempty(
                            Keys { entries: keys.entries, source: path },
                            msg.as_str(),
                        ),
                        Err(e) => Err(e),
                    }
                },
                FileRead::Missing(msg) => if explicit {
                    Err(ParseError::Io(msg))
                } else {
                    Err(ParseError::NotFound(path))
                },
                FileRead::Failed(msg) => Err(ParseError::Io(msg)),
                FileRead::Unread => Err(ParseError::NotFound(path)),
            },
        }
    }

    /// `keys`, or an error that says `msg` if there are none.
    pub fn require_nonempty(keys: Keys, msg: &str) -> (r: Result<Keys, ParseError>)
        ensures
            outcome(r) == nonempty(Ok(keys@), msg@),
            r matches Ok(k) ==> k == keys,
    {
        if keys.entries.len() == 0 {
            Err(ParseError::Empty(msg.to_owned()))
        } else {
            Ok(keys)
        }
    }

    /// Parses the textual format. A repeated key is an error (its slots would
    /// count twice), and so is a concurrency that does not fit.
    pub fn parse(text: &str) -> (r: Result<Keys, ParseError>)
        ensures
            outcome(r) == parse_text(text@),
            r matches Ok(keys) ==> keys.source@ == Seq::<char>::empty(),
    {
        let lines = text::split(text, '\n');
        let ghost all = text::views(lines@);
        let mut entries: Vec<(String, u32)> = Vec::new();
        let mut i: usize = 0;
        assert(entry_views(entries@) =~= seq![]);
        assert(all.skip(0) =~= all);
        while i < lines.len()
            invariant
                all == text::views(lines@),
                all == text::pieces(text@, '\n'),
                i <= lines@.len(),
                parse_lines(all.skip(i as int), entry_views(entries@)) == parse_lines(all, seq![]),
            decreases lines@.len() - i,
        {
            assert(all.skip(i as int)[0] == lines@[i as int]@);
            assert(all.skip(i as int).skip(1) =~= all.skip(i + 1));
            match read_line(lines[i].as_str()) {
                Err(e) => {
                    return Err(e);
                },
                Ok(None) => {},
                Ok(Some(entry)) => {
                    if holds_key(&entries, entry.0.as_str()) {
                        let mut msg = "duplicate key entry: …".to_owned();
                        msg.append(suffix(entry.0.as_str()).as_str());
                        return Err(ParseError::BadLine(msg));
                    }
                    let ghost before = entry_views(entries@);
                    entries.push(entry);
                    assert(entry_views(entries@) =~= before.push((entry.0@, entry.1)));
                },
            }
            i = i + 1;
        }
        assert(all.skip(all.len() as int) =~= seq![]);
        Ok(Keys { entries, source: String::new() })
    }

    /// The suffixes of the keys, for banner and logs. Secrets stay here.
    pub fn suffixes(&self) -> (r: Vec<String>)
        ensures
            text::views(r@) == self@.map_values(|e: Entry| suffix_of(e.0)),
    {
        let mut r: Vec<String> = Vec::new();
        let mut i: usize = 0;
        while i < self.entries.len()
            invariant
                i <= self.entries@.len(),
                r@.len() == i,
                forall|j: int| 0 <= j < i ==> (#[trigger] r@[j])@ == suffix_of(self@[j].0),
            decreases self.entries@.len() - i,
        {
            r.push(suffix(self.entries[i].0.as_str()));
            i = i + 1;
        }
        assert(text::views(r@) =~= self@.map_values(|e: Entry| suffix_of(e.0)));
        r
    }

    /// How many keys there are.
    pub fn len(&self) -> (r: usize)
        ensures
            r == self@.len(),
    {
        self.entries.len()
    }

    /// Whether there is no key.
    pub fn is_empty(&self) -> (r: bool)
        ensures
            r == (self@.len() == 0),
    {
        self.entries.len() == 0
    }
}

impl ParseError {
    /// What the error says to the user.
    pub fn message(&self) -> (r: String)
        ensures
            r@ == error_message(self@),
    {
        match self {
            ParseError::NotFound(path) => {
                let mut r = "no keys found: set OLLAMUX_KEYS or create ".to_owned();
                r.append(path.as_str());
                r.append(" (one API key per line)");
                r
            },
            ParseError::BadLine(line) => {
                let mut r = "unparseable key line: ".to_owned();
                r.append(text::debug_quote(line.as_str()).as_str());
                r
            },
            ParseError::BadConcurrency { line, tail } => {
                let mut r = "invalid concurrency ".to_owned();
                r.append(text::debug_quote(tail.as_str()).as_str());
                r.append(" in key line (want `KEY:N`, N = 1..=u32::MAX): ");
                r.append(text::debug_quote(line.as_str()).as_str());
                r
            },
            ParseError::Empty(msg) => {
                let mut r = "no keys: ".to_owned();
                r.append(msg.as_str());
                r
            },
            ParseError::Io(msg) => {
                let mut r = "reading keys: ".to_owned();
                r.append(msg.as_str());
                r
            },
        }
    }
}

/// The warning for a keys file at `path` with permission bits `mode` that
/// others than its owner may use.
pub fn permission_warning(path: &str, mode: u32) -> (r: Option<String>)
    ensures
        match r {
            Some(msg) => mode & 0o077 != 0 && msg@ == "ollamux: warning: "@ + path@
                + " is readable by others (mode "@ + text::in_base((mode & 0o777) as nat, 8)
                + "); fix: chmod 600 "@ + path@,
            None => mode & 0o077 == 0,
        },
{
    if mode & 0o077 == 0 {
        return None;
    }
    let mut r = "ollamux: warning: ".to_owned();
    r.append(path);
    r.append(" is readable by others (mode ");
    r.append(text::to_base((mode & 0o777) as u64, 8).as_str());
    r.append("); fix: chmod 600 ");
    r.append(path);
    Some(r)
}

// ---------------------------------------------------------------------------
// Laws
// ---------------------------------------------------------------------------

/// No key occurs twice, none is empty, and each may run at least one request.
pub open spec fn usable(entries: Seq<Entry>) -> bool {
    &&& forall|i: int, j: int|
        0 <= i < j < entries.len() ==> (#[trigger] entries[i]).0 != (#[trigger] entries[j]).0
    &&& forall|i: int| 0 <= i < entries.len() ==> (#[trigger] entries[i]).0.len() > 0
    &&& forall|i: int| 0 <= i < entries.len() ==> (#[trigger] entries[i]).1 >= 1
}

proof fn lemma_trim_end_keeps_first(s: Seq<char>)
    requires
        s.len() > 0,
        !text::is_white(s[0]),
    ensures
        text::trim_end(s).len() > 0,
        text::trim_end(s)[0] == s[0],
    decreases s.len(),
{
    if text::is_white(s.last()) {
        lemma_trim_end_keeps_first(s.drop_last());
    }
}

proof fn lemma_trim_start_first(s: Seq<char>)
    ensures
        text::trim_start(s).len() > 0 ==> !text::is_white(text::trim_start(s)[0]),
    decreases s.len(),
{
    if s.len() > 0 && text::is_white(s[0]) {
        lemma_trim_start_first(s.skip(1));
    }
}

proof fn lemma_trim_end_keeps_prefix(s: Seq<char>)
    ensures
        text::trim_end(s).len() <= s.len(),
        text::trim_end(s).len() > 0 ==> text::trim_end(s)[0] == s[0],
    decreases s.len(),
{
    if s.len() > 0 && text::is_white(s.last()) {
        lemma_trim_end_keeps_prefix(s.drop_last());
    }
}

/// A trimmed text that is not empty starts with a visible character.
proof fn lemma_trimmed_first(s: Seq<char>)
    ensures
        text::trimmed(s).len() > 0 ==> !text::is_white(text::trimmed(s)[0]),
{
    lemma_trim_start_first(s);
    lemma_trim_end_keeps_prefix(text::trim_start(s));
}

proof fn lemma_last_of_range(s: Seq<char>, c: char)
    ensures
        -1 <= text::last_of(s, c) < s.len(),
    decreases s.len(),
{
    if s.len() > 0 {
        lemma_last_of_range(s.drop_last(), c);
    }
}

proof fn lemma_line_key(line: Seq<char>)
    ensures
        parse_line(line) matches LineView::Key { key, concurrency } ==> key.len() > 0
            && concurrency >= 1,
{
    let s = significant(line);
    let t = text::trimmed(line);
    lemma_trimmed_first(t.take(comment_start(t, 0)));
    lemma_last_of_range(s, ':');
    let at = text::last_of(s, ':');
    if at > 0 {
        let head = s.take(at);
        assert(head[0] == s[0]);
        assert(text::trim_start(head) == head);
        lemma_trim_end_keeps_first(head);
    }
}

proof fn lemma_parse_lines_usable(lines: Seq<Seq<char>>, done: Seq<Entry>)
    requires
        usable(done),
    ensures
        parse_lines(lines, done) matches Ok(entries) ==> usable(entries),
    decreases lines.len(),
{
    if lines.len() > 0 {
        lemma_line_key(lines[0]);
        match parse_line(lines[0]) {
            LineView::Blank => lemma_parse_lines_usable(lines.skip(1), done),
            LineView::BadConcurrency { .. } => {},
            LineView::Key { key, concurrency } => {
                if !has_key(done, key) {
                    let more = done.push((key, concurrency));
                    assert forall|i: int, j: int| 0 <= i < j < more.len() implies (
                    #[trigger] more[i]).0 != (#[trigger] more[j]).0 by {
                        assert(done[i] == more[i]);
                        if j < done.len() {
                            assert(done[j] == more[j]);
                        }
                    }
                    lemma_parse_lines_usable(lines.skip(1), more);
                }
            },
        }
    }
}

/// Keys that parse are usable: none occurs twice, none is empty, and each has
/// at least one slot.
pub proof fn law_parsed_keys_are_usable(text: Seq<char>)
    ensures
        parse_text(text) matches Ok(entries) ==> usable(entries),
{
    lemma_parse_lines_usable(text::pieces(text, '\n'), seq![]);
}

/// What loads is usable, and there is at least one key.
pub proof fn law_loaded_keys_are_usable(origin: OriginView, file: FileRead)
    ensures
        load_from(origin, file) matches Ok(entries) ==> usable(entries) && entries.len() > 0,
{
    match origin {
        OriginView::Env(raw) => law_parsed_keys_are_usable(commas_split(raw)),
        OriginView::File { .. } => {
            if let FileRead::Text(t) = file {
                law_parsed_keys_are_usable(t@);
            }
        },
    }
}

/// A suffix shows at most four characters, all from the end of the key.
pub proof fn law_suffix_is_short(key: Seq<char>)
    ensures
        suffix_of(key).len() <= 4,
        suffix_of(key).is_suffix_of(key),
{
    assert(key.skip(key.len() - suffix_of(key).len()) =~= suffix_of(key));
}

/// A suffix is four characters long, or the whole key where that is shorter.
pub proof fn law_suffix_is_four_long(key: Seq<char>, front: Seq<char>)
    ensures
        key.len() <= 4 ==> suffix_of(key) == key,
        key.len() == 4 ==> suffix_of(front + key) == key,
{
    if key.len() == 4 {
        let all = front + key;
        if front.len() == 0 {
            assert(all =~= key);
        } else {
            assert(all.skip(all.len() - 4) =~= key);
        }
    }
}

proof fn lemma_comment_start(s: Seq<char>, i: int, at: int)
    requires
        0 <= i <= at <= s.len(),
        forall|k: int|
            i <= k < at ==> !(#[trigger] s[k] == '#' && (k == 0 || text::is_white(s[k - 1]))),
        at < s.len() ==> s[at] == '#' && (at == 0 || text::is_white(s[at - 1])),
    ensures
        comment_start(s, i) == at,
    decreases at - i,
{
    if i < at {
        lemma_comment_start(s, i + 1, at);
    }
}

/// White space around a line does not count.
pub proof fn law_indentation_is_ignored(a: Seq<char>, line: Seq<char>, b: Seq<char>)
    requires
        forall|i: int| 0 <= i < a.len() ==> text::is_white(#[trigger] a[i]),
        forall|i: int| 0 <= i < b.len() ==> text::is_white(#[trigger] b[i]),
    ensures
        parse_line(a + line + b) == parse_line(line),
{
    text::law_white_around_is_ignored(a, line, b);
}

/// A line without a hash sign counts as it is, but for white space around it.
proof fn lemma_no_comment(line: Seq<char>)
    requires
        !line.contains('#'),
    ensures
        significant(line) == text::trimmed(line),
{
    let (a, b) = text::law_trimming(line);
    let s = text::trimmed(line);
    assert forall|k: int| 0 <= k < s.len() implies #[trigger] s[k] != '#' by {
        assert(s[k] == line[a + k]);
        assert(line.contains(line[a + k]));
    }
    lemma_comment_start(s, 0, s.len() as int);
    assert(s.take(s.len() as int) =~= s);
    if s.len() > 0 {
        assert(s[0] == line[a] && s.last() == line[b - 1]);
    }
    text::law_trim_text_is_kept(s);
}

/// A comment behind white space does not count: neither behind a key nor on a
/// line of its own.
pub proof fn law_comments_are_ignored(line: Seq<char>, w: char, comment: Seq<char>)
    requires
        !line.contains('#'),
        text::is_white(w),
    ensures
        parse_line(line + seq![w] + seq!['#'] + comment) == parse_line(line),
        parse_line(seq!['#'] + comment) == LineView::Blank,
{
    let all = line + seq![w] + seq!['#'] + comment;
    let p = line.len() + 1int;
    let (a, b) = text::law_trimming(all);
    assert(all[p] == '#');
    assert(!text::is_white('#'));
    assert(a <= p < b);
    let x = text::trimmed(all);
    let at = p - a;
    assert forall|k: int| 0 <= k < at implies #[trigger] x[k] != '#' by {
        assert(x[k] == all[a + k]);
        if a + k < line.len() {
            assert(all[a + k] == line[a + k]);
            assert(line.contains(line[a + k]));
        } else {
            assert(all[a + k] == w);
        }
    }
    assert(x[at] == all[p]);
    if at > 0 {
        assert(x[at - 1] == all[p - 1] && all[p - 1] == w);
    }
    lemma_comment_start(x, 0, at);
    let front = line + seq![w];
    let rest = front.skip(a);
    assert(x.take(at) =~= rest);
    let lead = front.take(a);
    assert forall|i: int| 0 <= i < lead.len() implies text::is_white(#[trigger] lead[i]) by {
        assert(lead[i] == all[i]);
    }
    text::law_white_around_is_ignored(lead, rest, seq![]);
    assert(lead + rest + Seq::<char>::empty() =~= front);
    text::law_white_around_is_ignored(seq![], line, seq![w]);
    assert(Seq::<char>::empty() + line + seq![w] =~= front);
    lemma_no_comment(line);
    assert(significant(all) == text::trimmed(line));

    let own = seq!['#'] + comment;
    let (c, d) = text::law_trimming(own);
    assert(own[0] == '#');
    assert(c == 0);
    let y = text::trimmed(own);
    assert(y[0] == own[0]);
    lemma_comment_start(y, 0, 0);
    assert(y.take(0) =~= seq![]);
    text::law_trim_text_is_kept(Seq::<char>::empty());
}

/// A word: it has no white space in it, and is no comment.
pub open spec fn is_word(s: Seq<char>) -> bool {
    &&& s.len() > 0
    &&& s[0] != '#'
    &&& forall|i: int| 0 <= i < s.len() ==> !text::is_white(#[trigger] s[i])
}

proof fn lemma_word_counts(s: Seq<char>)
    requires
        is_word(s),
    ensures
        significant(s) == s,
{
    text::law_trim_text_is_kept(s);
    assert forall|k: int| 0 <= k < s.len() implies !(#[trigger] s[k] == '#' && (k == 0
        || text::is_white(s[k - 1]))) by {
        if k > 0 {
            assert(!text::is_white(s[k - 1]));
        }
    }
    lemma_comment_start(s, 0, s.len() as int);
    assert(s.take(s.len() as int) =~= s);
}

/// `KEY:N` is the key with `N` slots, one at least. A number that does not fit
/// in 32 bits is an error.
pub proof fn law_slots_are_read(key: Seq<char>, n: nat)
    requires
        is_word(key),
    ensures
        ({
            let line = key + ":"@ + text::decimal(n);
            &&& 1 <= n <= 4_294_967_295 ==> parse_line(line) == (LineView::Key {
                key,
                concurrency: n as u32,
            })
            &&& n == 0 ==> parse_line(line) == (LineView::Key { key, concurrency: 1 })
            &&& n > 4_294_967_295 ==> parse_line(line) == (LineView::BadConcurrency {
                line,
                tail: text::decimal(n),
            })
        }),
{
    reveal_strlit(":");
    let digits = text::decimal(n);
    let line = key + ":"@ + digits;
    let at = key.len() as int;
    text::law_decimal_reads_back(n);
    assert forall|i: int| 0 <= i < line.len() implies !text::is_white(#[trigger] line[i]) by {
        if i < at {
            assert(line[i] == key[i]);
        } else if i == at {
            assert(line[i] == ':');
        } else {
            assert(line[i] == digits[i - at - 1]);
            assert(text::is_digit(digits[i - at - 1]));
        }
    }
    assert(line[0] == key[0]);
    lemma_word_counts(line);
    assert forall|i: int| at < i < line.len() implies #[trigger] line[i] != ':' by {
        assert(line[i] == digits[i - at - 1]);
        assert(text::is_digit(digits[i - at - 1]));
    }
    assert(line[at] == ':');
    text::law_last_is_last(line, ':');
    let last = text::last_of(line, ':');
    assert(last == at) by {
        if last < at {
            assert(line[at] != ':');
        }
    }
    assert(line.skip(at + 1) =~= digits);
    assert(line.take(at) =~= key);
    assert(!text::is_white(key[0]) && !text::is_white(key[key.len() - 1]));
    text::law_trim_text_is_kept(key);
}

/// A key without a number behind its last colon has three slots, and its colons
/// are part of it.
pub proof fn law_slots_are_three_by_default(key: Seq<char>, tail: Seq<char>)
    requires
        is_word(key),
        !key.contains(':') || (key.len() > tail.len() && key[key.len() - tail.len() - 1] == ':'
            && tail == key.skip(key.len() - tail.len()) && !tail.contains(':') && (tail.len() == 0
            || exists|i: int| 0 <= i < tail.len() && !('0' <= #[trigger] tail[i] <= '9'))),
    ensures
        parse_line(key) == (LineView::Key { key, concurrency: 3 }),
{
    lemma_word_counts(key);
    text::law_last_is_last(key, ':');
    let last = text::last_of(key, ':');
    if !key.contains(':') {
        if last >= 0 {
            assert(key.contains(key[last]));
        }
    } else {
        let at = key.len() - tail.len() - 1;
        assert(last >= at) by {
            if last < at {
                assert(key[at] != ':');
            }
        }
        assert(last <= at) by {
            if last > at {
                assert(tail[last - at - 1] == key[last]);
                assert(tail.contains(':'));
            }
        }
        assert(key.skip(last + 1) =~= tail);
        if tail.len() > 0 {
            let i = choose|i: int| 0 <= i < tail.len() && !('0' <= #[trigger] tail[i] <= '9');
            assert(!text::is_digit(tail[i]));
        }
    }
}

/// Lines are read one after the other: what comes of `a` and then `b` is what
/// comes of `b` from where `a` left off, unless `a` failed.
pub proof fn law_lines_are_read_in_order(
    a: Seq<Seq<char>>,
    b: Seq<Seq<char>>,
    done: Seq<Entry>,
)
    ensures
        parse_lines(a + b, done) == (match parse_lines(a, done) {
            Ok(more) => parse_lines(b, more),
            Err(e) => Err(e),
        }),
    decreases a.len(),
{
    if a.len() == 0 {
        assert(a + b =~= b);
    } else {
        let rest = a.skip(1);
        assert((a + b).skip(1) =~= rest + b);
        assert((a + b)[0] == a[0]);
        match parse_line(a[0]) {
            LineView::Blank => law_lines_are_read_in_order(rest, b, done),
            LineView::Key { key, concurrency } => {
                law_lines_are_read_in_order(rest, b, done.push((key, concurrency)));
            },
            _ => {},
        }
    }
}

/// A line adds its key at the end, adds nothing if it is blank, and is an error
/// if its key is there already or its number does not fit.
pub proof fn law_each_line_adds_its_key(line: Seq<char>, done: Seq<Entry>)
    ensures
        match parse_line(line) {
            LineView::Blank => parse_lines(seq![line], done) == Ok::<Seq<Entry>, ErrorView>(done),
            LineView::Key { key, concurrency } => if exists|i: int|
                0 <= i < done.len() && (#[trigger] done[i]).0 == key {
                parse_lines(seq![line], done) == Err::<Seq<Entry>, ErrorView>(
                    ErrorView::BadLine("duplicate key entry: …"@ + suffix_of(key)),
                )
            } else {
                parse_lines(seq![line], done) == Ok::<Seq<Entry>, ErrorView>(
                    done.push((key, concurrency)),
                )
            },
            LineView::BadConcurrency { line: l, tail } => parse_lines(seq![line], done) == Err::<
                Seq<Entry>,
                ErrorView,
            >(ErrorView::BadConcurrency { line: l, tail }),
        },
{
    reveal_with_fuel(parse_lines, 2);
    assert(seq![line].skip(1) =~= seq![]);
}

/// A text is read line by line: what comes of two texts with a line end between
/// them is what comes of the one and then of the other.
pub proof fn law_texts_are_read_by_lines(a: Seq<char>, b: Seq<char>)
    ensures
        parse_text(a + seq!['\n'] + b) == (match parse_text(a) {
            Ok(done) => parse_lines(text::pieces(b, '\n'), done),
            Err(e) => Err(e),
        }),
        !a.contains('\n') ==> parse_text(a) == parse_lines(seq![a], seq![]),
{
    text::law_splitting(a, b, '\n');
    law_lines_are_read_in_order(text::pieces(a, '\n'), text::pieces(b, '\n'), seq![]);
}

/// In the variable, a comma is as good as a line end.
pub proof fn law_commas_are_line_ends(a: Seq<char>, b: Seq<char>, file: FileRead)
    ensures
        load_from(OriginView::Env(a + seq![','] + b), file) == load_from(
            OriginView::Env(a + seq!['\n'] + b),
            file,
        ),
        !a.contains(',') ==> commas_split(a) == a,
{
    assert(commas_split(a + seq![','] + b) =~= commas_split(a + seq!['\n'] + b));
    if !a.contains(',') {
        assert forall|i: int| 0 <= i < a.len() implies commas_split(a)[i] == a[i] by {
            assert(a.contains(a[i]));
        }
        assert(commas_split(a) =~= a);
    }
}

/// Keys come from the file that the command line names; else from the
/// variable; else from the configuration directory, which is that of
/// `XDG_CONFIG_HOME` or else `.config` at home.
pub proof fn law_where_keys_come_from(
    explicit: Option<Seq<char>>,
    keys: Option<Seq<char>>,
    xdg: Option<Seq<char>>,
    home: Option<Seq<char>>,
)
    ensures
        ({
            let o = origin(explicit, keys, xdg, home);
            let no_xdg = xdg is None || xdg->0.len() == 0;
            &&& explicit matches Some(path) ==> o == Ok::<OriginView, ErrorView>(
                OriginView::File { path, explicit: true },
            )
            &&& explicit is None && keys is Some ==> o == Ok::<OriginView, ErrorView>(
                OriginView::Env(keys->0),
            )
            &&& explicit is None && keys is None && !no_xdg ==> o == Ok::<OriginView, ErrorView>(
                OriginView::File { path: joined(xdg->0, "ollamux/keys"@), explicit: false },
            )
            &&& explicit is None && keys is None && no_xdg && home is Some ==> o == Ok::<
                OriginView,
                ErrorView,
            >(OriginView::File { path: joined(home->0, ".config/ollamux/keys"@), explicit: false })
            &&& explicit is None && keys is None && no_xdg && home is None ==> o is Err
        }),
{
}

/// A file below a directory has one slash between them.
pub proof fn law_paths_are_joined(base: Seq<char>, rel: Seq<char>)
    ensures
        base.len() > 0 && base.last() != '/' ==> joined(base, rel) == base + "/"@ + rel,
        base.len() > 0 && base.last() == '/' ==> joined(base, rel) == base + rel,
        base.len() == 0 ==> joined(base, rel) == rel,
{
    assert(Seq::<char>::empty() + rel =~= rel);
    if base.len() == 0 {
        assert(base + rel =~= rel);
    }
}

/// What loading gives: what the text holds if that is any key, an error if it
/// holds none or is in error; a missing file is an input error if it was named,
/// and else says where keys are looked for.
pub proof fn law_what_loading_gives(path: Seq<char>, explicit: bool, raw: Seq<char>, t: String)
    ensures
        ({
            let o = OriginView::File { path, explicit };
            &&& match parse_text(t@) {
                Ok(entries) => if entries.len() > 0 {
                    load_from(o, FileRead::Text(t)) == Ok::<Seq<Entry>, ErrorView>(entries)
                } else {
                    load_from(o, FileRead::Text(t)) matches Err(ErrorView::Empty(_))
                },
                Err(e) => load_from(o, FileRead::Text(t)) == Err::<Seq<Entry>, ErrorView>(e),
            }
            &&& load_from(o, FileRead::Missing(t)) == Err::<Seq<Entry>, ErrorView>(
                if explicit {
                    ErrorView::Io(t@)
                } else {
                    ErrorView::NotFound(path)
                },
            )
            &&& load_from(o, FileRead::Failed(t)) == Err::<Seq<Entry>, ErrorView>(
                ErrorView::Io(t@),
            )
        }),
        match parse_text(commas_split(raw)) {
            Ok(entries) => if entries.len() > 0 {
                load_from(OriginView::Env(raw), FileRead::Unread) == Ok::<Seq<Entry>, ErrorView>(
                    entries,
                )
            } else {
                load_from(OriginView::Env(raw), FileRead::Unread) matches Err(ErrorView::Empty(_))
            },
            Err(e) => load_from(OriginView::Env(raw), FileRead::Unread) == Err::<
                Seq<Entry>,
                ErrorView,
            >(e),
        },
{
}

/// White space before the colon is no part of the key, and a line that starts
/// with its only colon is a key as a whole.
pub proof fn law_odd_colons(key: Seq<char>, w: char, n: nat)
    requires
        is_word(key),
        !key.contains('#'),
        text::is_white(w),
        1 <= n <= 4_294_967_295,
    ensures
        parse_line(key + seq![w] + ":"@ + text::decimal(n)) == (LineView::Key {
            key,
            concurrency: n as u32,
        }),
        parse_line(":"@ + text::decimal(n)) == (LineView::Key {
            key: ":"@ + text::decimal(n),
            concurrency: 3,
        }),
{
    reveal_strlit(":");
    let digits = text::decimal(n);
    text::law_decimal_reads_back(n);
    let line = key + seq![w] + ":"@ + digits;
    let at = key.len() + 1int;
    assert(line[0] == key[0]);
    assert(text::is_digit(digits.last()));
    assert(line.last() == digits.last());
    text::law_trim_text_is_kept(line);
    assert(!line.contains('#')) by {
        if line.contains('#') {
            let i = choose|i: int| 0 <= i < line.len() && line[i] == '#';
            if i < key.len() {
                assert(key[i] == '#');
            } else if i > at {
                assert(line[i] == digits[i - at - 1]);
                assert(text::is_digit(digits[i - at - 1]));
            }
        }
    }
    lemma_no_comment(line);
    lemma_colon_at(line, at, digits);
    assert(line.take(at) =~= key + seq![w]);
    text::law_white_around_is_ignored(seq![], key, seq![w]);
    assert(Seq::<char>::empty() + key + seq![w] =~= key + seq![w]);
    assert(!text::is_white(key[0]) && !text::is_white(key[key.len() - 1]));
    text::law_trim_text_is_kept(key);
    let bare = ":"@ + digits;
    assert forall|i: int| 0 <= i < bare.len() implies !text::is_white(#[trigger] bare[i]) by {
        if i > 0 {
            assert(bare[i] == digits[i - 1]);
            assert(text::is_digit(digits[i - 1]));
        }
    }
    lemma_word_counts(bare);
    lemma_colon_at(bare, 0, digits);
}

proof fn lemma_colon_at(line: Seq<char>, at: int, digits: Seq<char>)
    requires
        text::all_digits(digits),
        0 <= at < line.len(),
        line[at] == ':',
        line.len() == at + 1 + digits.len(),
        forall|i: int| 0 <= i < digits.len() ==> line[at + 1 + i] == #[trigger] digits[i],
    ensures
        text::last_of(line, ':') == at,
        line.skip(at + 1) == digits,
{
    text::law_last_is_last(line, ':');
    let last = text::last_of(line, ':');
    if last > at {
        assert(line[at + 1 + (last - at - 1)] == digits[last - at - 1]);
        assert(text::is_digit(digits[last - at - 1]));
    }
    if last < at {
        assert(line[at] != ':');
    }
    assert(line.skip(at + 1) =~= digits);
}

/// What a user is told names what is wrong: the path that was looked at, the
/// line and the number that were not understood, or the system's own message.
pub proof fn law_errors_name_the_cause(a: Seq<char>, b: Seq<char>)
    ensures
        text::occurs(error_message(ErrorView::NotFound(a)), a),
        text::occurs(error_message(ErrorView::BadLine(a)), text::debug_form(a)),
        text::occurs(
            error_message(ErrorView::BadConcurrency { line: a, tail: b }),
            text::debug_form(a),
        ),
        text::occurs(
            error_message(ErrorView::BadConcurrency { line: a, tail: b }),
            text::debug_form(b),
        ),
        text::occurs(error_message(ErrorView::Empty(a)), a),
        text::occurs(error_message(ErrorView::Io(a)), a),
{
    let none = Seq::<char>::empty();
    let x = "no keys found: set OLLAMUX_KEYS or create "@;
    let y = " (one API key per line)"@;
    text::law_what_is_there_occurs(x, a, y);
    let l = "unparseable key line: "@;
    text::law_what_is_there_occurs(l, text::debug_form(a), none);
    assert(l + text::debug_form(a) + none =~= l + text::debug_form(a));
    let c = "invalid concurrency "@;
    let d = " in key line (want `KEY:N`, N = 1..=u32::MAX): "@;
    let all = c + text::debug_form(b) + d + text::debug_form(a);
    text::law_what_is_there_occurs(c, text::debug_form(b), d + text::debug_form(a));
    assert(all =~= c + text::debug_form(b) + (d + text::debug_form(a)));
    text::law_what_is_there_occurs(c + text::debug_form(b) + d, text::debug_form(a), none);
    assert(all =~= (c + text::debug_form(b) + d) + text::debug_form(a) + none);
    let e = "no keys: "@;
    text::law_what_is_there_occurs(e, a, none);
    assert(e + a + none =~= e + a);
    let f = "reading keys: "@;
    text::law_what_is_there_occurs(f, a, none);
    assert(f + a + none =~= f + a);
}

} // verus!
