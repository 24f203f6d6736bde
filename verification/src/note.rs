//! The note store: an in-memory image of the notes directory. Each note is
//! one named file of text lines; a record carries `title:`, `created:` and
//! `last_updated:` header lines, a `---` delimiter, and the body. The store
//! verifies all the logic — sanitization, metadata parsing, listing, id
//! resolution, create / show / update / delete and search — while the
//! surrounding binary moves the image to and from disk.

use vstd::prelude::*;
use vstd::string::StrSliceExecFns;
use vstd::string::StringExecFns;
use crate::text::{
    has_prefix, has_prefix_exec, after_prefix, str_eq, is_alnum, is_alnum_exec, lower_of,
    lowercase, lines_v, split_lines, join_nl, parse_id, parse_usize, find_sub, find_substring, contains_seq,
    split_to_lines,
};

verus! {

/// Errors a store operation can surface.
#[derive(Debug)]
pub enum NoteError {
    Io(String),
    NoteExists,
    NoteNotFound,
    InvalidId,
}

impl NoteError {
    /// The human-readable line an error is reported as.
    pub fn message(&self) -> (r: String)
        ensures
            r@ == (match self {
                NoteError::Io(m) => "I/O error: "@ + m@,
                NoteError::NoteExists => "Note already exists"@,
                NoteError::NoteNotFound => "Note not found"@,
                NoteError::InvalidId => "Invalid note ID"@,
            }),
    {
        match self {
            NoteError::Io(m) => {
                let mut s = "I/O error: ".to_owned();
                s.append(m.as_str());
                s
            },
            NoteError::NoteExists => "Note already exists".to_owned(),
            NoteError::NoteNotFound => "Note not found".to_owned(),
            NoteError::InvalidId => "Invalid note ID".to_owned(),
        }
    }
}

/// One stored file: its name (the storage key) and its text lines.
pub struct NoteFile {
    pub name: String,
    pub lines: Vec<String>,
}

/// The mathematical value of a stored file.
pub struct FileV {
    pub name: Seq<char>,
    pub lines: Seq<Seq<char>>,
}

impl View for NoteFile {
    type V = FileV;

    open spec fn view(&self) -> FileV {
        FileV { name: self.name@, lines: lines_v(self.lines@) }
    }
}

/// The note store: the directory it mirrors and the files in it, in
/// enumeration order.
pub struct NoteApp {
    pub notes_dir: String,
    pub files: Vec<NoteFile>,
}

/// The mathematical value of the store.
pub struct StoreV {
    pub notes_dir: Seq<char>,
    pub files: Seq<FileV>,
}

impl View for NoteApp {
    type V = StoreV;

    open spec fn view(&self) -> StoreV {
        StoreV {
            notes_dir: self.notes_dir@,
            files: self.files@.map_values(|f: NoteFile| f@),
        }
    }
}

/// The header fields a scan of a file's lines yields.
pub struct MetaV {
    pub title: Seq<char>,
    pub created: Seq<char>,
    pub last_updated: Seq<char>,
    pub has_title: bool,
    pub has_created: bool,
}

/// The header fields of a note, as values.
pub struct NoteBasicMetadata {
    pub title: String,
    pub created: String,
    pub last_updated: String,
}

/// One listed note: its transient numeric id, its header fields and the
/// storage key it lives under.
#[derive(Debug)]
pub struct NoteMetadata {
    pub id: usize,
    pub title: String,
    pub created: String,
    pub path: String,
    pub last_updated: String,
}

/// How a note matched a search: by its title, or by its body.
#[derive(Debug, PartialEq, Eq, Structural)]
pub enum MatchType {
    Title,
    Content,
}

/// One search hit: the listed note, how it matched, and for a body match an
/// excerpt around the first occurrence.
#[derive(Debug)]
pub struct NoteSearchResult {
    pub note: NoteMetadata,
    pub match_type: MatchType,
    pub preview: Option<String>,
}

pub open spec fn title_prefix() -> Seq<char> {
    "title: "@
}

pub open spec fn created_prefix() -> Seq<char> {
    "created: "@
}

pub open spec fn updated_prefix() -> Seq<char> {
    "last_updated: "@
}

pub open spec fn dash_line() -> Seq<char> {
    "---"@
}

pub open spec fn empty_meta() -> MetaV {
    MetaV {
        title: Seq::empty(),
        created: Seq::empty(),
        last_updated: Seq::empty(),
        has_title: false,
        has_created: false,
    }
}

/// How one header line updates the fields gathered so far: the last
/// occurrence of a header wins, other lines change nothing.
pub open spec fn step_meta(acc: MetaV, l: Seq<char>) -> MetaV {
    if has_prefix(l, title_prefix()) {
        MetaV { title: l.skip(title_prefix().len() as int), has_title: true, ..acc }
    } else if has_prefix(l, created_prefix()) {
        MetaV { created: l.skip(created_prefix().len() as int), has_created: true, ..acc }
    } else if has_prefix(l, updated_prefix()) {
        MetaV { last_updated: l.skip(updated_prefix().len() as int), ..acc }
    } else {
        acc
    }
}

/// Scans lines in order, stopping at the first delimiter line.
pub open spec fn scan_meta(lines: Seq<Seq<char>>, acc: MetaV) -> MetaV
    decreases lines.len(),
{
    if lines.len() == 0 {
        acc
    } else if lines[0] == dash_line() {
        acc
    } else {
        scan_meta(lines.drop_first(), step_meta(acc, lines[0]))
    }
}

/// A file is a note exactly when both `title:` and `created:` appear before
/// the delimiter; these are its header fields.
pub open spec fn parsed_meta(lines: Seq<Seq<char>>) -> Option<MetaV> {
    let m = scan_meta(lines, empty_meta());
    if m.has_title && m.has_created {
        Some(m)
    } else {
        None
    }
}

/// A title's storage key: every character that is not an ASCII letter or
/// digit becomes an underscore.
pub open spec fn sanitize_spec(t: Seq<char>) -> Seq<char> {
    t.map_values(|c: char| if is_alnum(c) { c } else { '_' })
}

/// No two files share a storage key, as in a real directory.
pub open spec fn distinct_names(files: Seq<FileV>) -> bool {
    forall|i: int, j: int|
        0 <= i < j < files.len() ==> (#[trigger] files[i]).name != (#[trigger] files[j]).name
}

/// One entry of a listing: which file it is and its header fields. The
/// entry's transient numeric id is its position in the listing plus one.
pub struct ListedV {
    pub idx: int,
    pub title: Seq<char>,
    pub created: Seq<char>,
    pub last_updated: Seq<char>,
    pub name: Seq<char>,
}

/// The listing of a directory image: the files that parse as notes, in
/// enumeration order, with their header fields.
pub open spec fn listing(files: Seq<FileV>) -> Seq<ListedV>
    decreases files.len(),
{
    if files.len() == 0 {
        Seq::empty()
    } else {
        let init = listing(files.drop_last());
        let f = files.last();
        match parsed_meta(f.lines) {
            Some(m) => init.push(
                (ListedV {
                    idx: files.len() - 1,
                    title: m.title,
                    created: m.created,
                    last_updated: m.last_updated,
                    name: f.name,
                }),
            ),
            None => init,
        }
    }
}

/// A listing never has more entries than the directory has files.
pub proof fn lemma_listing_len(files: Seq<FileV>)
    ensures
        listing(files).len() <= files.len(),
    decreases files.len(),
{
    if files.len() > 0 {
        lemma_listing_len(files.drop_last());
    }
}

/// Every listing entry points at the file it was read from: the index is in
/// range, the file carries the entry's name, and its lines parse to exactly
/// the entry's header fields.
pub proof fn lemma_listing_entries(files: Seq<FileV>)
    ensures
        forall|j: int|
            0 <= j < listing(files).len() ==> {
                &&& 0 <= (#[trigger] listing(files)[j]).idx < files.len()
                &&& files[listing(files)[j].idx].name == listing(files)[j].name
                &&& parsed_meta(files[listing(files)[j].idx].lines) is Some
                &&& parsed_meta(files[listing(files)[j].idx].lines).unwrap().title == listing(
                    files,
                )[j].title
                &&& parsed_meta(files[listing(files)[j].idx].lines).unwrap().created == listing(
                    files,
                )[j].created
                &&& parsed_meta(files[listing(files)[j].idx].lines).unwrap().last_updated
                    == listing(files)[j].last_updated
            },
    decreases files.len(),
{
    if files.len() > 0 {
        let d = files.drop_last();
        lemma_listing_entries(d);
        assert(forall|k: int| 0 <= k < d.len() ==> d[k] == files[k]);
        assert(forall|j: int|
            0 <= j < listing(d).len() ==> #[trigger] listing(files)[j] == listing(d)[j]);
    }
}

/// The first file stored under a given name, if any.
pub open spec fn find_name(files: Seq<FileV>, nm: Seq<char>) -> Option<int>
    decreases files.len(),
{
    if files.len() == 0 {
        None
    } else if files[0].name == nm {
        Some(0)
    } else {
        match find_name(files.drop_first(), nm) {
            Option::None => Option::None,
            Option::Some(k) => Some(k + 1),
        }
    }
}

/// `find_name` yields exactly the first position of the name, and fails
/// exactly when no file carries it.
pub proof fn lemma_find_name(files: Seq<FileV>, nm: Seq<char>)
    ensures
        match find_name(files, nm) {
            Option::None => forall|i: int| 0 <= i < files.len() ==> (#[trigger] files[i]).name != nm,
            Option::Some(k) => {
                &&& 0 <= k < files.len()
                &&& files[k].name == nm
                &&& forall|i: int| 0 <= i < k ==> (#[trigger] files[i]).name != nm
            },
        },
    decreases files.len(),
{
    if files.len() > 0 && files[0].name != nm {
        let d = files.drop_first();
        lemma_find_name(d, nm);
        match find_name(d, nm) {
            Option::None => {
                assert forall|i: int| 0 <= i < files.len() implies (#[trigger] files[i]).name
                    != nm by {
                    if i >= 1 {
                        assert(files[i] == d[i - 1]);
                    }
                }
            },
            Option::Some(k) => {
                assert(files[k + 1] == d[k]);
                assert forall|i: int| 0 <= i < k + 1 implies (#[trigger] files[i]).name != nm by {
                    if i >= 1 {
                        assert(files[i] == d[i - 1]);
                    }
                }
            },
        }
    }
}

/// The first delimiter line, if any.
pub open spec fn find_dash(lines: Seq<Seq<char>>) -> Option<int>
    decreases lines.len(),
{
    if lines.len() == 0 {
        None
    } else if lines[0] == dash_line() {
        Some(0)
    } else {
        match find_dash(lines.drop_first()) {
            Option::None => Option::None,
            Option::Some(k) => Some(k + 1),
        }
    }
}

/// `find_dash` yields exactly the first delimiter position, and fails
/// exactly when there is none.
pub proof fn lemma_find_dash(lines: Seq<Seq<char>>)
    ensures
        match find_dash(lines) {
            Option::None => forall|i: int| 0 <= i < lines.len() ==> #[trigger] lines[i] != dash_line(),
            Option::Some(k) => {
                &&& 0 <= k < lines.len()
                &&& lines[k] == dash_line()
                &&& forall|i: int| 0 <= i < k ==> #[trigger] lines[i] != dash_line()
            },
        },
    decreases lines.len(),
{
    if lines.len() > 0 && lines[0] != dash_line() {
        let d = lines.drop_first();
        lemma_find_dash(d);
        match find_dash(d) {
            Option::None => {
                assert forall|i: int| 0 <= i < lines.len() implies #[trigger] lines[i]
                    != dash_line() by {
                    if i >= 1 {
                        assert(lines[i] == d[i - 1]);
                    }
                }
            },
            Option::Some(k) => {
                assert(lines[k + 1] == d[k]);
                assert forall|i: int| 0 <= i < k + 1 implies #[trigger] lines[i] != dash_line() by {
                    if i >= 1 {
                        assert(lines[i] == d[i - 1]);
                    }
                }
            },
        }
    }
}

/// A note's body: every line strictly after the first delimiter line, each
/// followed by one newline; empty when there is no delimiter.
pub open spec fn body_of(lines: Seq<Seq<char>>) -> Seq<char> {
    match find_dash(lines) {
        Option::None => Seq::empty(),
        Option::Some(d) => join_nl(lines.skip(d + 1)),
    }
}

/// What an identifier names: a numeric id is a one-based position in the
/// listing and must be in range; anything else is a title, sanitized and
/// looked up as a storage key.
pub enum Lookup {
    Found(int),
    BadId,
    Missing,
}

/// Resolves an identifier against the directory image: a file position, or
/// the error the identifier deserves.
pub open spec fn resolve(files: Seq<FileV>, ident: Seq<char>) -> Lookup {
    match parse_id(ident) {
        Option::Some(v) => {
            let entries = listing(files);
            if 1 <= v <= entries.len() {
                Lookup::Found(entries[v - 1].idx)
            } else {
                Lookup::BadId
            }
        },
        Option::None => {
            match find_name(files, sanitize_spec(ident)) {
                Option::Some(i) => Lookup::Found(i),
                Option::None => Lookup::Missing,
            }
        },
    }
}

/// The listing of a directory prefix is a prefix of the whole listing.
pub proof fn lemma_listing_prefix(files: Seq<FileV>, i: int)
    requires
        0 <= i <= files.len(),
    ensures
        listing(files.take(i)).len() <= listing(files).len(),
        listing(files.take(i)) == listing(files).take(listing(files.take(i)).len() as int),
    decreases files.len(),
{
    if i == files.len() {
        assert(files.take(i) =~= files);
        assert(listing(files).take(listing(files).len() as int) =~= listing(files));
    } else {
        let d = files.drop_last();
        assert(files.take(i) =~= d.take(i));
        lemma_listing_prefix(d, i);
        let l = listing(files.take(i)).len() as int;
        assert(listing(d).take(l) =~= listing(files).take(l));
    }
}

/// The lines of a freshly written note record: the three header lines, the
/// delimiter, then the content split at its newlines.
pub open spec fn note_lines(
    title: Seq<char>,
    created: Seq<char>,
    updated: Seq<char>,
    content: Seq<char>,
) -> Seq<Seq<char>> {
    seq![
        title_prefix() + title,
        created_prefix() + created,
        updated_prefix() + updated,
        dash_line(),
    ] + split_lines(content)
}

/// Newlines collapsed to spaces.
pub open spec fn collapse_nl(s: Seq<char>) -> Seq<char> {
    s.map_values(
        |c: char|
            if c == '\n' {
                ' '
            } else {
                c
            },
    )
}

/// The preview of a keyword match inside a body: the first match of the
/// keyword in the lowercased body, with up to twenty characters of context
/// on each side, clamped to the body, an ellipsis marking each truncated
/// side, and newlines collapsed to spaces. The match position indexes the
/// lowercased text while the excerpt is cut from the original, so the cut is
/// clamped to the original's bounds.
pub open spec fn preview_spec(content: Seq<char>, kw: Seq<char>) -> Seq<char> {
    match find_sub(lower_of(content), kw) {
        Option::None => Seq::empty(),
        Option::Some(pos) => {
            let start0 = if pos > 20 {
                pos - 20
            } else {
                0
            };
            let end = if pos + kw.len() + 20 < content.len() {
                pos + kw.len() + 20
            } else {
                content.len() as int
            };
            let start = if start0 < end {
                start0
            } else {
                end
            };
            let core = collapse_nl(content.subrange(start, end));
            let pre = if start0 > 0 {
                "..."@
            } else {
                Seq::<char>::empty()
            };
            let post = if end < content.len() {
                "..."@
            } else {
                Seq::<char>::empty()
            };
            pre + core + post
        },
    }
}

/// The mathematical value of one search hit: the listing entry, its
/// one-based listing id, whether the title matched, and the preview of a
/// body match.
pub struct ResultV {
    pub entry: ListedV,
    pub lid: int,
    pub title_match: bool,
    pub preview: Option<Seq<char>>,
}

/// How one listed note answers a search for an already-lowercased keyword:
/// a title hit needs no preview and takes precedence; otherwise the note's
/// body is fetched by its title, as `show` would, and searched; a note whose
/// title resolves nowhere is passed over.
pub open spec fn classify(
    files: Seq<FileV>,
    e: ListedV,
    lid: int,
    kwl: Seq<char>,
) -> Option<ResultV> {
    if contains_seq(lower_of(e.title), kwl) {
        Some(ResultV { entry: e, lid, title_match: true, preview: None })
    } else {
        match resolve(files, e.title) {
            Lookup::Found(i) => {
                let body = body_of(files[i].lines);
                if contains_seq(lower_of(body), kwl) {
                    Some(
                        ResultV {
                            entry: e,
                            lid,
                            title_match: false,
                            preview: Some(preview_spec(body, kwl)),
                        },
                    )
                } else {
                    None
                }
            },
            Lookup::BadId => None,
            Lookup::Missing => None,
        }
    }
}

/// The search hits among a prefix of the listing, in listing order.
pub open spec fn search_results(
    files: Seq<FileV>,
    entries: Seq<ListedV>,
    kwl: Seq<char>,
) -> Seq<ResultV>
    decreases entries.len(),
{
    if entries.len() == 0 {
        Seq::empty()
    } else {
        let init = search_results(files, entries.drop_last(), kwl);
        match classify(files, entries.last(), entries.len() as int, kwl) {
            Option::Some(rv) => init.push(rv),
            Option::None => init,
        }
    }
}

/// A text that holds no newline, so it fits on one line of a record.
pub open spec fn line_clean(s: Seq<char>) -> bool {
    forall|i: int| 0 <= i < s.len() ==> #[trigger] s[i] != '\n'
}

/// Relies on chrono's `DateTime::<Utc>::from_timestamp` and its strftime
/// formatting: the current moment, rendered as `YYYY-MM-DD HH:MM:SS`. The
/// value depends on the clock, so nothing is promised of it beyond holding
/// no newline: every formatted item is digits or punctuation. A clock before
/// 1970, or out of chrono's range, falls back to the epoch; both branches
/// return, where chrono's own clock reading would abort on such a clock.
#[verifier::external_body]
fn now_timestamp() -> (r: String)
    ensures
        line_clean(r@),
{
    let secs = match std::time::SystemTime::now().duration_since(std::time::UNIX_EPOCH) {
        Ok(d) => d.as_secs() as i64,
        Err(_) => 0,
    };
    match chrono::DateTime::<chrono::Utc>::from_timestamp(secs, 0) {
        Some(t) => t.format("%Y-%m-%d %H:%M:%S").to_string(),
        None => "1970-01-01 00:00:00".to_string(),
    }
}

/// The search hits as values answer for the spec's hits: same notes, same
/// ids, same kinds of match, same previews, in the same order.
pub open spec fn results_match(rs: Seq<NoteSearchResult>, out: Seq<ResultV>) -> bool {
    &&& rs.len() == out.len()
    &&& forall|j: int|
        0 <= j < out.len() ==> {
            &&& (#[trigger] rs[j]).note.id == out[j].lid
            &&& rs[j].note.title@ == out[j].entry.title
            &&& rs[j].note.created@ == out[j].entry.created
            &&& rs[j].note.last_updated@ == out[j].entry.last_updated
            &&& rs[j].note.path@ == out[j].entry.name
            &&& (rs[j].match_type == MatchType::Title <==> out[j].title_match)
            &&& match out[j].preview {
                Option::Some(p) => rs[j].preview matches Some(q) && q@ == p,
                Option::None => rs[j].preview is None,
            }
        }
}

/// A copy of a listed note, field by field.
fn duplicate_meta(m: &NoteMetadata) -> (r: NoteMetadata)
    ensures
        r.id == m.id,
        r.title@ == m.title@,
        r.created@ == m.created@,
        r.path@ == m.path@,
        r.last_updated@ == m.last_updated@,
{
    NoteMetadata {
        id: m.id,
        title: m.title.clone(),
        created: m.created.clone(),
        path: m.path.clone(),
        last_updated: m.last_updated.clone(),
    }
}

/// A header line: the given prefix followed by the given text.
fn prefix_line(p: &str, rest: &str) -> (r: String)
    ensures
        r@ == p@ + rest@,
{
    let mut s = p.to_owned();
    s.append(rest);
    s
}

/// Finds the first delimiter line among a file's lines.
fn find_dash_exec(lines: &Vec<String>) -> (r: Option<usize>)
    ensures
        match find_dash(lines_v(lines@)) {
            Option::None => r is None,
            Option::Some(k) => r matches Some(u) && u == k,
        },
{
    let ghost lv = lines_v(lines@);
    proof {
        lemma_find_dash(lv);
    }
    let n = lines.len();
    let mut d: usize = 0;
    while d < n
        invariant
            0 <= d <= n,
            n == lines@.len(),
            lv == lines_v(lines@),
            forall|j: int| 0 <= j < d ==> #[trigger] lv[j] != dash_line(),
        decreases n - d,
    {
        if str_eq(lines[d].as_str(), "---") {
            proof {
                lemma_find_dash(lv);
                assert(lv[d as int] == dash_line());
            }
            return Some(d);
        }
        d += 1;
    }
    proof {
        lemma_find_dash(lv);
    }
    None
}

impl NoteApp {
    /// A store bound to a directory, before any files are loaded into it.
    pub fn new(notes_dir: String) -> (s: Self)
        ensures
            s@.notes_dir == notes_dir@,
            s@.files == Seq::<FileV>::empty(),
    {
        let s = NoteApp { notes_dir, files: Vec::new() };
        proof {
            assert(s@.files =~= Seq::<FileV>::empty());
        }
        s
    }

    /// Loads one more file into the directory image, after the others.
    pub fn add_file(&mut self, name: String, lines: Vec<String>)
        ensures
            final(self)@.notes_dir == old(self)@.notes_dir,
            final(self)@.files == old(self)@.files.push(
                (FileV { name: name@, lines: lines_v(lines@) }),
            ),
    {
        let ghost fv = FileV { name: name@, lines: lines_v(lines@) };
        self.files.push(NoteFile { name, lines });
        proof {
            assert(self@.files =~= old(self)@.files.push(fv));
        }
    }

    /// Replaces every non-alphanumeric character of a title by `_`.
    pub fn sanitize_filename(&self, filename: &str) -> (r: String)
        ensures
            r@ == sanitize_spec(filename@),
    {
        let n = filename.unicode_len();
        let mut r = String::new();
        let mut i: usize = 0;
        while i < n
            invariant
                0 <= i <= n,
                n == filename@.len(),
                r@ =~= sanitize_spec(filename@.take(i as int)),
            decreases n - i,
        {
            let c = filename.get_char(i);
            if is_alnum_exec(c) {
                let piece = filename.substring_char(i, i + 1);
                r.append(piece);
            } else {
                proof {
                    reveal_strlit("_");
                }
                r.append("_");
            }
            proof {
                assert(r@ =~= sanitize_spec(filename@.take(i + 1)));
            }
            i += 1;
        }
        proof {
            assert(filename@.take(n as int) =~= filename@);
        }
        r
    }

    /// The storage key a title maps to.
    pub fn get_note_path(&self, title: &str) -> (r: Result<String, NoteError>)
        ensures
            r matches Ok(p) && p@ == sanitize_spec(title@),
    {
        Ok(self.sanitize_filename(title))
    }

    /// Lists the notes among the loaded files, in enumeration order,
    /// assigning ids by position in the listing, starting at one.
    pub fn list_notes(&self) -> (r: Result<Vec<NoteMetadata>, NoteError>)
        ensures
            r matches Ok(ns) && {
                let entries = listing(self@.files);
                &&& ns@.len() == entries.len()
                &&& forall|j: int|
                    0 <= j < entries.len() ==> {
                        &&& (#[trigger] ns@[j]).id == j + 1
                        &&& ns@[j].title@ == entries[j].title
                        &&& ns@[j].created@ == entries[j].created
                        &&& ns@[j].last_updated@ == entries[j].last_updated
                        &&& ns@[j].path@ == entries[j].name
                    }
            },
    {
        let ghost fv = self@.files;
        let mut notes: Vec<NoteMetadata> = Vec::new();
        let n = self.files.len();
        let mut i: usize = 0;
        while i < n
            invariant
                0 <= i <= n,
                n == self.files@.len(),
                fv == self@.files,
                notes@.len() == listing(fv.take(i as int)).len(),
                forall|j: int|
                    0 <= j < notes@.len() ==> {
                        &&& (#[trigger] notes@[j]).id == j + 1
                        &&& notes@[j].title@ == listing(fv.take(i as int))[j].title
                        &&& notes@[j].created@ == listing(fv.take(i as int))[j].created
                        &&& notes@[j].last_updated@ == listing(fv.take(i as int))[j].last_updated
                        &&& notes@[j].path@ == listing(fv.take(i as int))[j].name
                    },
            decreases n - i,
        {
            proof {
                assert(fv.take(i + 1).drop_last() =~= fv.take(i as int));
                assert(fv.take(i + 1).last() == fv[i as int]);
                lemma_listing_len(fv.take(i as int));
            }
            let file = &self.files[i];
            let meta = self.get_note_metadata(&file.lines);
            match meta {
                Some(m) => {
                    let id = notes.len() + 1;
                    notes.push(
                        NoteMetadata {
                            id,
                            title: m.title,
                            created: m.created,
                            path: file.name.clone(),
                            last_updated: m.last_updated,
                        },
                    );
                },
                None => {},
            }
            i += 1;
        }
        proof {
            assert(fv.take(n as int) =~= fv);
        }
        Ok(notes)
    }

    /// Resolves an identifier to the position of a stored file, or to the
    /// error the identifier deserves.
    pub fn resolve_index(&self, identifier: &str) -> (r: Result<usize, NoteError>)
        ensures
            match resolve(self@.files, identifier@) {
                Lookup::Found(i) => r matches Ok(u) && u == i && 0 <= i < self@.files.len(),
                Lookup::BadId => r matches Err(NoteError::InvalidId),
                Lookup::Missing => r matches Err(NoteError::NoteNotFound),
            },
    {
        let ghost fv = self@.files;
        let n = self.files.len();
        match parse_usize(identifier) {
            Some(v) => {
                if v == 0 {
                    return Err(NoteError::InvalidId);
                }
                let mut count: usize = 0;
                let mut i: usize = 0;
                proof {
                    assert(fv.take(0) =~= Seq::<FileV>::empty());
                }
                while i < n
                    invariant
                        0 <= i <= n,
                        n == self.files@.len(),
                        fv == self@.files,
                        1 <= v,
                        parse_id(identifier@) == Some(v as int),
                        count == listing(fv.take(i as int)).len(),
                        count < v,
                    decreases n - i,
                {
                    proof {
                        assert(fv.take(i + 1).drop_last() =~= fv.take(i as int));
                        assert(fv.take(i + 1).last() == fv[i as int]);
                        lemma_listing_len(fv.take(i as int));
                    }
                    let file = &self.files[i];
                    if self.get_note_metadata(&file.lines).is_some() {
                        count += 1;
                        if count == v {
                            proof {
                                assert(fv[i as int] == file@);
                                lemma_listing_prefix(fv, i + 1);
                                let pre = listing(fv.take(i + 1));
                                assert(pre.len() == v);
                                assert(pre.last().idx == i);
                                assert(pre == listing(fv).take(v as int));
                                assert(listing(fv)[v - 1] == pre[v - 1]);
                                assert(resolve(self@.files, identifier@) == Lookup::Found(
                                    i as int,
                                ));
                            }
                            return Ok(i);
                        }
                    }
                    i += 1;
                }
                proof {
                    assert(fv.take(n as int) =~= fv);
                }
                Err(NoteError::InvalidId)
            },
            None => {
                let nm = self.sanitize_filename(identifier);
                proof {
                    lemma_find_name(fv, nm@);
                }
                let mut i: usize = 0;
                while i < n
                    invariant
                        0 <= i <= n,
                        n == self.files@.len(),
                        fv == self@.files,
                        nm@ == sanitize_spec(identifier@),
                        parse_id(identifier@) is None,
                        forall|j: int| 0 <= j < i ==> (#[trigger] fv[j]).name != nm@,
                    decreases n - i,
                {
                    let file = &self.files[i];
                    if str_eq(file.name.as_str(), nm.as_str()) {
                        proof {
                            lemma_find_name(fv, nm@);
                            assert(fv[i as int].name == nm@);
                            match find_name(fv, nm@) {
                                Option::None => {
                                    assert(false);
                                },
                                Option::Some(k) => {
                                    assert(fv[k].name == nm@);
                                    assert(k == i);
                                },
                            }
                            assert(resolve(self@.files, identifier@) == Lookup::Found(i as int));
                        }
                        return Ok(i);
                    }
                    i += 1;
                }
                proof {
                    lemma_find_name(fv, nm@);
                }
                Err(NoteError::NoteNotFound)
            },
        }
    }

    /// Whether a file already sits under the given storage key.
    fn name_exists(&self, nm: &str) -> (b: bool)
        ensures
            b == (find_name(self@.files, nm@) is Some),
    {
        let ghost fv = self@.files;
        proof {
            lemma_find_name(fv, nm@);
        }
        let n = self.files.len();
        let mut i: usize = 0;
        while i < n
            invariant
                0 <= i <= n,
                n == self.files@.len(),
                fv == self@.files,
                forall|j: int| 0 <= j < i ==> (#[trigger] fv[j]).name != nm@,
            decreases n - i,
        {
            if str_eq(self.files[i].name.as_str(), nm) {
                proof {
                    lemma_find_name(fv, nm@);
                    assert(fv[i as int].name == nm@);
                }
                return true;
            }
            i += 1;
        }
        proof {
            lemma_find_name(fv, nm@);
        }
        false
    }

    /// Writes a new note record under the title's storage key, with both
    /// timestamps set to the given moment; refuses to overwrite a key that
    /// is already taken, whatever title it was written under.
    pub fn create_note_at(&mut self, title: &str, content: &str, timestamp: &str) -> (r: Result<
        (),
        NoteError,
    >)
        ensures
            match find_name(old(self)@.files, sanitize_spec(title@)) {
                Option::Some(_) => r matches Err(NoteError::NoteExists) && *final(self) == *old(
                    self,
                ),
                Option::None => {
                    &&& r is Ok
                    &&& final(self)@.notes_dir == old(self)@.notes_dir
                    &&& final(self)@.files == old(self)@.files.push(
                        (FileV {
                            name: sanitize_spec(title@),
                            lines: note_lines(title@, timestamp@, timestamp@, content@),
                        }),
                    )
                },
            },
    {
        let nm = self.sanitize_filename(title);
        if self.name_exists(nm.as_str()) {
            return Err(NoteError::NoteExists);
        }
        let mut lines: Vec<String> = Vec::new();
        lines.push(prefix_line("title: ", title));
        lines.push(prefix_line("created: ", timestamp));
        lines.push(prefix_line("last_updated: ", timestamp));
        lines.push("---".to_owned());
        let mut body = split_to_lines(content);
        let ghost header = lines@;
        let ghost bodyv = body@;
        lines.append(&mut body);
        proof {
            assert(lines@ == header + bodyv);
            assert(lines_v(lines@) =~= note_lines(title@, timestamp@, timestamp@, content@));
        }
        let ghost fv0 = self@.files;
        let nf = NoteFile { name: nm, lines };
        let ghost nfv = nf@;
        self.files.push(nf);
        proof {
            assert(self@.files =~= fv0.push(nfv));
        }
        Ok(())
    }

    /// Writes a new note record under the title's storage key, with both
    /// timestamps taken from the clock; refuses to overwrite a key that is
    /// already taken.
    pub fn create_note(&mut self, title: &str, content: &str) -> (r: Result<(), NoteError>)
        ensures
            match find_name(old(self)@.files, sanitize_spec(title@)) {
                Option::Some(_) => r matches Err(NoteError::NoteExists) && *final(self) == *old(
                    self,
                ),
                Option::None => {
                    &&& r is Ok
                    &&& final(self)@.notes_dir == old(self)@.notes_dir
                    &&& exists|ts: Seq<char>|
                        line_clean(ts) && final(self)@.files == old(self)@.files.push(
                            (FileV {
                                name: sanitize_spec(title@),
                                lines: note_lines(title@, ts, ts, content@),
                            }),
                        )
                },
            },
    {
        let ts = now_timestamp();
        let r = self.create_note_at(title, content, ts.as_str());
        proof {
            if find_name(old(self)@.files, sanitize_spec(title@)) is None {
                assert(self@.files == old(self)@.files.push(
                    (FileV {
                        name: sanitize_spec(title@),
                        lines: note_lines(title@, ts@, ts@, content@),
                    }),
                ));
            }
        }
        r
    }

    /// Rewrites the note an identifier names: the stored title and creation
    /// time are kept, the update time becomes the given moment, and the body
    /// is replaced by the new content.
    pub fn update_note_at(
        &mut self,
        identifier: &str,
        new_content: &str,
        timestamp: &str,
    ) -> (r: Result<(), NoteError>)
        ensures
            match resolve(old(self)@.files, identifier@) {
                Lookup::Found(i) => {
                    match parsed_meta(old(self)@.files[i].lines) {
                        Option::Some(m) => {
                            &&& r is Ok
                            &&& final(self)@.notes_dir == old(self)@.notes_dir
                            &&& final(self)@.files == old(self)@.files.update(
                                i,
                                (FileV {
                                    name: old(self)@.files[i].name,
                                    lines: note_lines(
                                        m.title,
                                        m.created,
                                        timestamp@,
                                        new_content@,
                                    ),
                                }),
                            )
                        },
                        Option::None => r matches Err(NoteError::NoteNotFound) && *final(self)
                            == *old(self),
                    }
                },
                Lookup::BadId => r matches Err(NoteError::InvalidId) && *final(self) == *old(self),
                Lookup::Missing => r matches Err(NoteError::NoteNotFound) && *final(self) == *old(
                    self,
                ),
            },
    {
        let idx = match self.resolve_index(identifier) {
            Ok(i) => i,
            Err(e) => {
                return Err(e);
            },
        };
        let meta = match self.get_note_metadata(&self.files[idx].lines) {
            Some(m) => m,
            None => {
                return Err(NoteError::NoteNotFound);
            },
        };
        let mut lines: Vec<String> = Vec::new();
        lines.push(prefix_line("title: ", meta.title.as_str()));
        lines.push(prefix_line("created: ", meta.created.as_str()));
        lines.push(prefix_line("last_updated: ", timestamp));
        lines.push("---".to_owned());
        let mut body = split_to_lines(new_content);
        let ghost header = lines@;
        let ghost bodyv = body@;
        lines.append(&mut body);
        let ghost m = parsed_meta(old(self)@.files[idx as int].lines).unwrap();
        proof {
            assert(lines@ == header + bodyv);
            assert(lines_v(lines@) =~= note_lines(m.title, m.created, timestamp@, new_content@));
        }
        let ghost fv0 = self@.files;
        let oldf = self.files.remove(idx);
        let nf = NoteFile { name: oldf.name, lines };
        let ghost nfv = nf@;
        self.files.insert(idx, nf);
        proof {
            assert(self@.files =~= fv0.update(idx as int, nfv));
        }
        Ok(())
    }

    /// Rewrites the note an identifier names, stamping the update with the
    /// clock's current moment.
    pub fn update_note(&mut self, identifier: &str, new_content: &str) -> (r: Result<
        (),
        NoteError,
    >)
        ensures
            match resolve(old(self)@.files, identifier@) {
                Lookup::Found(i) => {
                    match parsed_meta(old(self)@.files[i].lines) {
                        Option::Some(m) => {
                            &&& r is Ok
                            &&& final(self)@.notes_dir == old(self)@.notes_dir
                            &&& exists|ts: Seq<char>|
                                line_clean(ts) && final(self)@.files == old(self)@.files.update(
                                    i,
                                    (FileV {
                                        name: old(self)@.files[i].name,
                                        lines: note_lines(m.title, m.created, ts, new_content@),
                                    }),
                                )
                        },
                        Option::None => r matches Err(NoteError::NoteNotFound) && *final(self)
                            == *old(self),
                    }
                },
                Lookup::BadId => r matches Err(NoteError::InvalidId) && *final(self) == *old(self),
                Lookup::Missing => r matches Err(NoteError::NoteNotFound) && *final(self) == *old(
                    self,
                ),
            },
    {
        let ts = now_timestamp();
        self.update_note_at(identifier, new_content, ts.as_str())
    }

    /// The storage key of the file an identifier names.
    pub fn find_note_path(&self, identifier: &str) -> (r: Result<String, NoteError>)
        ensures
            match resolve(self@.files, identifier@) {
                Lookup::Found(i) => r matches Ok(p) && p@ == self@.files[i].name,
                Lookup::BadId => r matches Err(NoteError::InvalidId),
                Lookup::Missing => r matches Err(NoteError::NoteNotFound),
            },
    {
        match self.resolve_index(identifier) {
            Ok(i) => Ok(self.files[i].name.clone()),
            Err(e) => Err(e),
        }
    }

    /// The body of the note an identifier names: every line strictly after
    /// the first delimiter line, each followed by a newline.
    pub fn show_note(&self, identifier: &str) -> (r: Result<String, NoteError>)
        ensures
            match resolve(self@.files, identifier@) {
                Lookup::Found(i) => r matches Ok(c) && c@ == body_of(self@.files[i].lines),
                Lookup::BadId => r matches Err(NoteError::InvalidId),
                Lookup::Missing => r matches Err(NoteError::NoteNotFound),
            },
    {
        let idx = match self.resolve_index(identifier) {
            Ok(i) => i,
            Err(e) => {
                return Err(e);
            },
        };
        let file = &self.files[idx];
        let ghost lv = file@.lines;
        let n = file.lines.len();
        proof {
            assert(self@.files[idx as int] == file@);
        }
        let d = match find_dash_exec(&file.lines) {
            Some(d) => d,
            None => {
                return Ok(String::new());
            },
        };
        proof {
            lemma_find_dash(lv);
            assert(find_dash(lv) == Some(d as int));
            assert(d < n);
        }
        let mut content = String::new();
        let mut j: usize = d + 1;
        proof {
            assert(Seq::<char>::empty() + join_nl(lv.skip(d + 1)) =~= join_nl(lv.skip(d + 1)));
        }
        while j < n
            invariant
                d + 1 <= j <= n,
                n == file.lines@.len(),
                lv == file@.lines,
                join_nl(lv.skip(d + 1)) == content@ + join_nl(lv.skip(j as int)),
            decreases n - j,
        {
            proof {
                assert(lv.skip(j as int)[0] == lv[j as int]);
                assert(lv.skip(j as int).drop_first() =~= lv.skip(j + 1));
                reveal_strlit("\n");
                assert("\n"@ =~= seq!['\n']);
            }
            let ghost before = content@;
            content.append(file.lines[j].as_str());
            content.append("\n");
            proof {
                assert(join_nl(lv.skip(j as int)) == lv[j as int] + seq!['\n'] + join_nl(
                    lv.skip(j + 1),
                ));
                assert(content@ + join_nl(lv.skip(j + 1)) =~= before + join_nl(lv.skip(j as int)));
            }
            j += 1;
        }
        proof {
            assert(lv.skip(n as int) =~= Seq::<Seq<char>>::empty());
            assert(join_nl(Seq::<Seq<char>>::empty()) == Seq::<char>::empty());
            assert(content@ =~= content@ + join_nl(lv.skip(n as int)));
        }
        Ok(content)
    }

    /// Searches all notes for a keyword, case-insensitively: a note whose
    /// title holds the keyword is a title match; otherwise its body is
    /// fetched and searched, and a hit carries an excerpt around the first
    /// occurrence. Hits come in listing order.
    pub fn search_notes(&self, keyword: &str) -> (r: Result<Vec<NoteSearchResult>, NoteError>)
        ensures
            r matches Ok(rs) && results_match(
                rs@,
                search_results(self@.files, listing(self@.files), lower_of(keyword@)),
            ),
    {
        let ghost fv = self@.files;
        let ghost entries = listing(fv);
        let notes = self.list_notes().unwrap();
        let kwl = lowercase(keyword);
        let mut results: Vec<NoteSearchResult> = Vec::new();
        let n = notes.len();
        let mut j: usize = 0;
        proof {
            assert(entries.take(0) =~= Seq::<ListedV>::empty());
        }
        while j < n
            invariant
                0 <= j <= n,
                fv == self@.files,
                entries == listing(fv),
                n == notes@.len(),
                n == entries.len(),
                kwl@ == lower_of(keyword@),
                forall|p: int|
                    0 <= p < n ==> {
                        &&& (#[trigger] notes@[p]).id == p + 1
                        &&& notes@[p].title@ == entries[p].title
                        &&& notes@[p].created@ == entries[p].created
                        &&& notes@[p].last_updated@ == entries[p].last_updated
                        &&& notes@[p].path@ == entries[p].name
                    },
                results_match(results@, search_results(fv, entries.take(j as int), kwl@)),
            decreases n - j,
        {
            proof {
                assert(entries.take(j + 1).drop_last() =~= entries.take(j as int));
                assert(entries.take(j + 1).last() == entries[j as int]);
            }
            let note = &notes[j];
            let tl = lowercase(note.title.as_str());
            let title_hit = find_substring(tl.as_str(), kwl.as_str());
            proof {
                crate::text::lemma_find_sub(tl@, kwl@);
            }
            match title_hit {
                Some(_) => {
                    results.push(
                        NoteSearchResult {
                            note: duplicate_meta(note),
                            match_type: MatchType::Title,
                            preview: None,
                        },
                    );
                },
                None => {
                    match self.show_note(note.title.as_str()) {
                        Ok(content) => {
                            let cl = lowercase(content.as_str());
                            let body_hit = find_substring(cl.as_str(), kwl.as_str());
                            proof {
                                crate::text::lemma_find_sub(cl@, kwl@);
                            }
                            match body_hit {
                                Some(_) => {
                                    let prev = self.extract_preview(
                                        content.as_str(),
                                        kwl.as_str(),
                                    );
                                    results.push(
                                        NoteSearchResult {
                                            note: duplicate_meta(note),
                                            match_type: MatchType::Content,
                                            preview: Some(prev),
                                        },
                                    );
                                },
                                None => {},
                            }
                        },
                        Err(_) => {},
                    }
                },
            }
            proof {
                assert(results_match(results@, search_results(fv, entries.take(j + 1), kwl@)));
            }
            j += 1;
        }
        proof {
            assert(entries.take(n as int) =~= entries);
        }
        Ok(results)
    }

    /// Cuts the excerpt around the first match of an already-lowercased
    /// keyword, with up to twenty characters of context on each side,
    /// ellipses for what was cut away, and newlines collapsed to spaces.
    pub fn extract_preview(&self, content: &str, keyword: &str) -> (r: String)
        ensures
            r@ == preview_spec(content@, keyword@),
    {
        let lc = lowercase(content);
        let pos = match find_substring(lc.as_str(), keyword) {
            Some(p) => p,
            None => {
                return String::new();
            },
        };
        proof {
            crate::text::lemma_find_sub(lc@, keyword@);
        }
        let cl = content.unicode_len();
        let kl = keyword.unicode_len();
        let start0: usize = if pos > 20 {
            pos - 20
        } else {
            0
        };
        let end: usize = if pos >= cl {
            cl
        } else if kl >= cl - pos {
            cl
        } else if 20 >= cl - pos - kl {
            cl
        } else {
            pos + kl + 20
        };
        proof {
            assert(end == (if pos + keyword@.len() + 20 < content@.len() {
                pos + keyword@.len() + 20
            } else {
                content@.len() as int
            }));
        }
        let start: usize = if start0 < end {
            start0
        } else {
            end
        };
        let piece = content.substring_char(start, end);
        let ghost pv = piece@;
        let mut out = String::new();
        if start0 > 0 {
            out.append("...");
        }
        let ghost pre = if start0 > 0 {
            "..."@
        } else {
            Seq::<char>::empty()
        };
        let pl = piece.unicode_len();
        let mut i: usize = 0;
        proof {
            assert(collapse_nl(pv.take(0)) =~= Seq::<char>::empty());
            assert(out@ =~= pre + collapse_nl(pv.take(0)));
        }
        while i < pl
            invariant
                0 <= i <= pl,
                pl == pv.len(),
                pv == piece@,
                out@ == pre + collapse_nl(pv.take(i as int)),
            decreases pl - i,
        {
            let c = piece.get_char(i);
            if c == '\n' {
                proof {
                    reveal_strlit(" ");
                    assert(" "@ =~= seq![' ']);
                }
                out.append(" ");
            } else {
                let one = piece.substring_char(i, i + 1);
                proof {
                    assert(one@ =~= seq![pv[i as int]]);
                }
                out.append(one);
            }
            proof {
                assert(out@ =~= pre + collapse_nl(pv.take(i + 1)));
            }
            i += 1;
        }
        if end < cl {
            out.append("...");
        }
        proof {
            assert(pv.take(pl as int) =~= pv);
            assert(out@ =~= preview_spec(content@, keyword@));
        }
        out
    }

    /// Removes the note an identifier names from the image.
    pub fn delete_note(&mut self, identifier: &str) -> (r: Result<(), NoteError>)
        ensures
            match resolve(old(self)@.files, identifier@) {
                Lookup::Found(i) => {
                    &&& r is Ok
                    &&& final(self)@.files == old(self)@.files.remove(i)
                    &&& final(self)@.notes_dir == old(self)@.notes_dir
                },
                Lookup::BadId => r matches Err(NoteError::InvalidId) && *final(self) == *old(self),
                Lookup::Missing => r matches Err(NoteError::NoteNotFound) && *final(self) == *old(
                    self,
                ),
            },
    {
        let idx = match self.resolve_index(identifier) {
            Ok(i) => i,
            Err(e) => {
                return Err(e);
            },
        };
        self.files.remove(idx);
        proof {
            assert(self@.files =~= old(self)@.files.remove(idx as int));
        }
        Ok(())
    }

    /// Scans a file's lines for the note header, stopping at the first
    /// delimiter line; yields the fields only when both required headers
    /// were present.
    pub fn get_note_metadata(&self, lines: &Vec<String>) -> (r: Option<NoteBasicMetadata>)
        ensures
            match r {
                Some(m) => {
                    &&& parsed_meta(lines_v(lines@)) matches Some(mv)
                    &&& m.title@ == mv.title
                    &&& m.created@ == mv.created
                    &&& m.last_updated@ == mv.last_updated
                },
                None => parsed_meta(lines_v(lines@)) is None,
            },
    {
        let ghost lv = lines_v(lines@);
        let mut title = String::new();
        let mut created = String::new();
        let mut last_updated = String::new();
        let mut has_title = false;
        let mut has_created = false;
        let n = lines.len();
        let mut i: usize = 0;
        proof {
            assert(lv.skip(0) =~= lv);
        }
        while i < n
            invariant
                0 <= i <= n,
                n == lines@.len(),
                lv == lines_v(lines@),
                scan_meta(lv, empty_meta()) == scan_meta(
                    lv.skip(i as int),
                    (MetaV {
                        title: title@,
                        created: created@,
                        last_updated: last_updated@,
                        has_title,
                        has_created,
                    }),
                ),
            decreases n - i,
        {
            let ghost acc = MetaV {
                title: title@,
                created: created@,
                last_updated: last_updated@,
                has_title,
                has_created,
            };
            let line: &String = &lines[i];
            proof {
                assert(lv.skip(i as int)[0] == lv[i as int]);
                assert(lv[i as int] == line@);
                assert(lv.skip(i as int).drop_first() =~= lv.skip(i + 1));
            }
            if str_eq(line.as_str(), "---") {
                proof {
                    assert(line@ == dash_line());
                    assert(scan_meta(lv.skip(i as int), acc) == acc);
                }
                if has_title && has_created {
                    return Some(NoteBasicMetadata { title, created, last_updated });
                } else {
                    return None;
                }
            }
            if has_prefix_exec(line.as_str(), "title: ") {
                title = after_prefix(line.as_str(), "title: ".unicode_len());
                has_title = true;
            } else if has_prefix_exec(line.as_str(), "created: ") {
                created = after_prefix(line.as_str(), "created: ".unicode_len());
                has_created = true;
            } else if has_prefix_exec(line.as_str(), "last_updated: ") {
                last_updated = after_prefix(line.as_str(), "last_updated: ".unicode_len());
            }
            proof {
                let acc2 = MetaV {
                    title: title@,
                    created: created@,
                    last_updated: last_updated@,
                    has_title,
                    has_created,
                };
                assert(acc2 == step_meta(acc, lv.skip(i as int)[0]));
                assert(scan_meta(lv.skip(i as int), acc) == scan_meta(lv.skip(i + 1), acc2));
            }
            i += 1;
        }
        if has_title && has_created {
            Some(NoteBasicMetadata { title, created, last_updated })
        } else {
            None
        }
    }
}

} // verus!
