//! Documents, their metadata, and the front-matter parser.
//!
//! A Markdown file may open with a front-matter block between two `---`
//! fences. The parser frames that block, hands the text between the fences to
//! whoever deserialises YAML, and completes the record from the body: the
//! reading time always, the title when the front-matter gave none.

use crate::error::{ErrorView, KnawledgeError};
use crate::text::{
    chars_of, count_char, count_from, find_char, index_from, lemma_index_from,
    lemma_index_from_later, lemma_index_from_skip, lemma_index_from_subrange,
    lemma_trim_ignores_trailing, lemma_trim_range, trim, trim_bounds,
};
use vstd::prelude::*;
use vstd::string::*;

verus! {

/// `uuid::Uuid`, the identifier of a directory. It is carried through as it
/// is: nothing of what it holds is looked at here.
#[verifier::external_type_specification]
#[verifier::external_body]
pub struct ExUuid(uuid::Uuid);

/// `Uuid` is `Copy`: its `clone` hands back the identifier it was given.
pub assume_specification[ <uuid::Uuid as Clone>::clone ](id: &uuid::Uuid) -> (r: uuid::Uuid)
    ensures
        r == *id,
;

/// The default `Uuid`. Nothing is claimed of it.
pub assume_specification[ <uuid::Uuid as Default>::default ]() -> (r: uuid::Uuid)
;

/// What a document says of itself.
#[derive(Debug, Clone, PartialEq, Eq)]
pub struct DocumentMeta {
    /// A user specified identifier for the document, meant for URLs and
    /// preferred over the document's own identifier.
    pub custom_id: Option<String>,
    pub title: Option<String>,
    /// Estimated reading time in minutes.
    pub reading_time: Option<i32>,
    pub tags: Option<Vec<String>>,
}

/// Metadata as contracts see it.
pub ghost struct MetaView {
    pub custom_id: Option<Seq<char>>,
    pub title: Option<Seq<char>>,
    pub reading_time: Option<i32>,
    pub tags: Option<Seq<Seq<char>>>,
}

impl MetaView {
    /// Metadata with every field absent.
    pub open spec fn absent() -> MetaView {
        MetaView { custom_id: None, title: None, reading_time: None, tags: None }
    }

    /// Metadata that holds at most a title.
    pub open spec fn titled(title: Option<Seq<char>>) -> MetaView {
        MetaView { custom_id: None, title, reading_time: None, tags: None }
    }
}

/// The text of an optional string.
pub open spec fn text_view(o: Option<String>) -> Option<Seq<char>> {
    match o {
        Some(s) => Some(s@),
        None => None,
    }
}

impl View for DocumentMeta {
    type V = MetaView;

    open spec fn view(&self) -> MetaView {
        MetaView {
            custom_id: text_view(self.custom_id),
            title: text_view(self.title),
            reading_time: self.reading_time,
            tags: match self.tags {
                Some(t) => Some(t.deep_view()),
                None => None,
            },
        }
    }
}

impl Default for DocumentMeta {
    fn default() -> (r: Self)
        ensures
            r@ == MetaView::absent(),
    {
        DocumentMeta { custom_id: None, title: None, reading_time: None, tags: None }
    }
}

/// The title that the first heading mark gives: the text after the first `#`
/// of the content up to the end of its line, trimmed. Absent when the content
/// holds no `#`.
///
/// This is what a scan line by line finds: see `lemma_title_by_lines`.
pub open spec fn title_from_h1(s: Seq<char>) -> Option<Seq<char>> {
    let hash = index_from(s, '#', 0);
    if hash >= s.len() {
        None
    } else {
        Some(trim(s.subrange(hash + 1, index_from(s, '\n', hash))))
    }
}

/// The line of `s` that starts at `from`: what stands before the next line
/// feed, less a carriage return that goes with the line feed.
pub open spec fn line_at(s: Seq<char>, from: int) -> Seq<char> {
    let end = index_from(s, '\n', from);
    if from < end < s.len() && s[end - 1] == '\r' {
        s.subrange(from, end - 1)
    } else {
        s.subrange(from, end)
    }
}

/// The title that one line gives: what follows the first `#` of the trimmed
/// line, trimmed; nothing where the line holds no `#`.
pub open spec fn title_of_line(line: Seq<char>) -> Option<Seq<char>> {
    let trimmed = trim(line);
    let hash = index_from(trimmed, '#', 0);
    if hash >= trimmed.len() {
        None
    } else {
        Some(trim(trimmed.skip(hash + 1)))
    }
}

/// The title of the first line, from the one that starts at `from` on, that
/// gives one.
pub open spec fn title_by_lines(s: Seq<char>, from: int) -> Option<Seq<char>>
    decreases s.len() + 1 - from,
    via title_by_lines_decreases
{
    if from < 0 || from >= s.len() {
        None
    } else {
        match title_of_line(line_at(s, from)) {
            Some(title) => Some(title),
            None => title_by_lines(s, index_from(s, '\n', from) + 1),
        }
    }
}

#[via_fn]
proof fn title_by_lines_decreases(s: Seq<char>, from: int) {
    if 0 <= from < s.len() {
        lemma_index_from(s, '\n', from);
    }
}

/// Scanning the content line by line for the first line that holds a `#`, and
/// taking what follows that line's first `#`, trimmed, gives the title that the
/// content's first `#` gives.
pub proof fn lemma_title_by_lines(s: Seq<char>)
    ensures
        title_by_lines(s, 0) == title_from_h1(s),
{
    lemma_title_from_line(s, 0);
}

/// The scan by lines gives the content's title from any line before which
/// there is no `#`.
proof fn lemma_title_from_line(s: Seq<char>, from: int)
    requires
        0 <= from,
        forall|j: int| 0 <= j < from && j < s.len() ==> s[j] != '#',
    ensures
        title_by_lines(s, from) == title_from_h1(s),
    decreases s.len() + 1 - from,
{
    lemma_index_from(s, '#', 0);
    let hash = index_from(s, '#', 0);
    if from < s.len() {
        lemma_index_from(s, '\n', from);
        let feed = index_from(s, '\n', from);
        let end = if from < feed < s.len() && s[feed - 1] == '\r' {
            feed - 1
        } else {
            feed
        };
        let at = lemma_trim_range(s, from, end);
        let trimmed = s.subrange(at.0, at.1);
        assert(trim(line_at(s, from)) == trimmed);
        lemma_index_from_later(s, '#', 0, at.0);
        lemma_index_from_subrange(s, '#', at.0, at.1, at.0);
        if hash < end {
            assert(at.0 <= hash < at.1);
            assert(trimmed.skip(hash - at.0 + 1) =~= s.subrange(hash + 1, at.1));
            lemma_index_from_later(s, '\n', from, hash);
            lemma_trim_ignores_trailing(s, hash + 1, at.1, feed);
        } else {
            assert(title_of_line(line_at(s, from)) is None);
            lemma_title_from_line(s, feed + 1);
        }
    }
}

/// The number of pieces that splitting on single spaces gives: one more than
/// the number of spaces.
pub open spec fn token_count(s: Seq<char>) -> nat {
    count_char(s, ' ') + 1
}

/// Minutes of reading for a text of `tokens` tokens: six tenths of the number
/// of whole two-hundreds, rounded down, and no more than `i32::MAX`.
pub open spec fn reading_time(tokens: nat) -> i32 {
    let minutes = (tokens / 200) * 3 / 5;
    if minutes > i32::MAX {
        i32::MAX
    } else {
        minutes as i32
    }
}

/// The fence that opens and closes a front-matter block.
pub open spec fn fence() -> Seq<char> {
    seq!['-', '-', '-']
}

/// Whether a fence starts at index `i` of `s`.
pub open spec fn fence_at(s: Seq<char>, i: int) -> bool {
    &&& 0 <= i
    &&& i + 3 <= s.len()
    &&& s[i] == '-'
    &&& s[i + 1] == '-'
    &&& s[i + 2] == '-'
}

/// Where the first fence at or after `from` starts.
pub open spec fn next_fence(s: Seq<char>, from: int) -> Option<int>
    decreases s.len() - from,
{
    if from < 0 || from + 3 > s.len() {
        None
    } else if fence_at(s, from) {
        Some(from)
    } else {
        next_fence(s, from + 1)
    }
}

/// How a file's content divides into front-matter and body.
pub ghost enum Framing {
    /// The content does not open with a fence.
    Unfenced,
    /// The opening fence is never closed.
    Unclosed,
    /// `front` stands between the two fences, `body` after the closing one.
    Fenced { front: Seq<char>, body: Seq<char> },
}

pub open spec fn framing(s: Seq<char>) -> Framing {
    if !fence_at(s, 0) {
        Framing::Unfenced
    } else {
        match next_fence(s, 3) {
            None => Framing::Unclosed,
            Some(close) => Framing::Fenced {
                front: s.subrange(3, close),
                body: s.skip(close + 3),
            },
        }
    }
}

/// The text to deserialise: what stands between the fences, unless that is
/// nothing.
pub open spec fn front_matter_of(s: Seq<char>) -> Option<Seq<char>> {
    match framing(s) {
        Framing::Fenced { front, body } => if front.len() > 0 {
            Some(front)
        } else {
            None
        },
        _ => None,
    }
}

/// Deserialised front-matter completed from the body: the reading time is
/// always the estimate for the body, the title falls back to the body's
/// heading.
pub open spec fn completed(front: MetaView, body: Seq<char>) -> MetaView {
    MetaView {
        custom_id: front.custom_id,
        title: if front.title is Some {
            front.title
        } else {
            title_from_h1(body)
        },
        reading_time: Some(reading_time(token_count(body))),
        tags: front.tags,
    }
}

/// What parsing `s` gives, where `front` is what deserialising
/// `front_matter_of(s)` gave. `front` has no say where there is nothing to
/// deserialise.
pub open spec fn read(s: Seq<char>, front: Result<MetaView, ErrorView>) -> Result<
    (MetaView, Seq<char>),
    ErrorView,
> {
    match framing(s) {
        Framing::Unfenced => Ok((MetaView::titled(title_from_h1(s)), s)),
        Framing::Unclosed => Ok((MetaView::titled(title_from_h1(s)), s.skip(3))),
        Framing::Fenced { front: source, body } => if source.len() == 0 {
            Ok((MetaView::absent(), body))
        } else {
            match front {
                Ok(meta) => Ok((completed(meta, body), body)),
                Err(e) => Err(e),
            }
        },
    }
}

/// The view of a deserialisation result.
pub open spec fn front_view(front: Result<DocumentMeta, KnawledgeError>) -> Result<
    MetaView,
    ErrorView,
> {
    match front {
        Ok(meta) => Ok(meta@),
        Err(e) => Err(e@),
    }
}

/// The view of a parse result.
pub open spec fn read_view(r: Result<(DocumentMeta, &str), KnawledgeError>) -> Result<
    (MetaView, Seq<char>),
    ErrorView,
> {
    match r {
        Ok((meta, body)) => Ok((meta@, body@)),
        Err(e) => Err(e@),
    }
}

fn title_after(content: &str, v: &Vec<char>, lo: usize) -> (r: Option<String>)
    requires
        v@ == content@,
        lo <= v.len(),
    ensures
        text_view(r) == title_from_h1(content@.skip(lo as int)),
{
    let ghost s = v@;
    let ghost tail = s.skip(lo as int);
    let hash = find_char(v, '#', lo);
    proof {
        lemma_index_from_skip(s, '#', lo as int, lo as int);
    }
    if hash >= v.len() {
        None
    } else {
        let end = find_char(v, '\n', hash);
        proof {
            lemma_index_from(s, '#', lo as int);
            lemma_index_from(s, '\n', hash as int);
            lemma_index_from_skip(s, '\n', lo as int, hash as int);
            assert(tail.subrange(hash - lo + 1, end - lo) =~= s.subrange(hash + 1, end as int));
        }
        let (a, b) = trim_bounds(v, hash + 1, end);
        Some(content.substring_char(a, b).to_owned())
    }
}

fn reading_time_after(v: &Vec<char>, lo: usize) -> (r: i32)
    requires
        lo <= v.len(),
    ensures
        r == reading_time(token_count(v@.skip(lo as int))),
{
    let spaces = count_from(v, ' ', lo);
    let tokens: u128 = spaces as u128 + 1;
    let minutes: u128 = (tokens / 200) * 3 / 5;
    if minutes > 0x7fff_ffff {
        i32::MAX
    } else {
        minutes as i32
    }
}

fn fence_here(v: &Vec<char>, i: usize) -> (b: bool)
    requires
        i <= v.len(),
    ensures
        b == fence_at(v@, i as int),
{
    v.len() - i >= 3 && v[i] == '-' && v[i + 1] == '-' && v[i + 2] == '-'
}

fn find_fence(v: &Vec<char>, from: usize) -> (r: Option<usize>)
    requires
        from <= v.len(),
    ensures
        match r {
            Some(k) => next_fence(v@, from as int) == Some(k as int) && from <= k && k + 3
                <= v.len(),
            None => next_fence(v@, from as int) is None,
        },
{
    let mut i: usize = from;
    while v.len() - i >= 3
        invariant
            from <= i <= v.len(),
            next_fence(v@, from as int) == next_fence(v@, i as int),
        decreases v.len() - i,
    {
        if fence_here(v, i) {
            return Some(i);
        }
        i += 1;
    }
    None
}

/// Scans the content for the first line that holds a `#` and returns what
/// follows the first `#` on that line, trimmed; `None` when no line holds one.
///
/// Any `#` counts, not only one that starts a line.
pub fn find_title_from_h1(content: &str) -> (r: Option<String>)
    ensures
        text_view(r) == title_from_h1(content@),
        r is None <==> !content@.contains('#'),
{
    let v = chars_of(content);
    proof {
        assert(content@.skip(0) =~= content@);
        lemma_index_from(content@, '#', 0);
    }
    title_after(content, &v, 0)
}

/// Estimates the minutes that reading `content` takes from its number of
/// space-separated tokens.
pub fn calculate_reading_time(content: &str) -> (r: i32)
    ensures
        r == reading_time(token_count(content@)),
{
    let v = chars_of(content);
    proof {
        assert(content@.skip(0) =~= content@);
    }
    reading_time_after(&v, 0)
}

impl DocumentMeta {
    /// The text between the fences that awaits deserialising, if the content
    /// has a closed front-matter block that is not empty.
    pub fn front_matter(content: &str) -> (r: Option<&str>)
        ensures
            match r {
                Some(source) => front_matter_of(content@) == Some(source@),
                None => front_matter_of(content@) is None,
            },
    {
        let v = chars_of(content);
        if !fence_here(&v, 0) {
            return None;
        }
        match find_fence(&v, 3) {
            Some(close) => if close > 3 {
                Some(content.substring_char(3, close))
            } else {
                None
            },
            None => None,
        }
    }

    /// Parses a file's content into its metadata and body.
    ///
    /// `front` is what deserialising `front_matter(content)` gave; it is left
    /// aside when there was nothing to deserialise. Content without an opening
    /// fence is all body, and an unclosed fence is dropped from the body; both
    /// get their title from the first heading of the whole content. Empty
    /// front-matter gives the default metadata. Otherwise a failed
    /// deserialisation fails the parse, and a successful one is completed
    /// from the body that follows the closing fence.
    pub fn read_from_str<'a>(content: &'a str, front: Result<DocumentMeta, KnawledgeError>) -> (r:
        Result<(DocumentMeta, &'a str), KnawledgeError>)
        ensures
            read_view(r) == read(content@, front_view(front)),
            front matches Err(e) ==> (r matches Err(x) ==> x == e),
    {
        let v = chars_of(content);
        let n = v.len();
        proof {
            assert(content@.skip(0) =~= content@);
        }
        if !fence_here(&v, 0) {
            let title = title_after(content, &v, 0);
            return Ok(
                (DocumentMeta { custom_id: None, title, reading_time: None, tags: None }, content),
            );
        }
        match find_fence(&v, 3) {
            None => {
                let title = title_after(content, &v, 0);
                let body = content.substring_char(3, n);
                Ok((DocumentMeta { custom_id: None, title, reading_time: None, tags: None }, body))
            },
            Some(close) => {
                let body = content.substring_char(close + 3, n);
                if close == 3 {
                    Ok((DocumentMeta::default(), body))
                } else {
                    match front {
                        Err(e) => Err(e),
                        Ok(meta) => {
                            let mut meta = meta;
                            meta.reading_time = Some(reading_time_after(&v, close + 3));
                            if meta.title.is_none() {
                                meta.title = title_after(content, &v, close + 3);
                            }
                            Ok((meta, body))
                        },
                    }
                }
            },
        }
    }
}

/// The catalog's record of one Markdown file.
#[derive(Debug, Clone, PartialEq, Eq)]
pub struct Document {
    /// File name with extension.
    pub file_name: String,
    /// Identifier of the directory that contains this file.
    pub directory: uuid::Uuid,
    /// Canonicalised path.
    pub path: String,
}

/// A document as contracts see it.
pub ghost struct DocumentView {
    pub file_name: Seq<char>,
    pub directory: uuid::Uuid,
    pub path: Seq<char>,
}

impl View for Document {
    type V = DocumentView;

    open spec fn view(&self) -> DocumentView {
        DocumentView { file_name: self.file_name@, directory: self.directory, path: self.path@ }
    }
}

impl Default for Document {
    fn default() -> (r: Self)
        ensures
            r.file_name@ == Seq::<char>::empty(),
            r.path@ == Seq::<char>::empty(),
    {
        Document { file_name: String::new(), directory: uuid::Uuid::default(), path: String::new() }
    }
}

/// The name given to a file whose path has no final segment, or one that is
/// not UTF-8.
pub open spec fn unknown_name() -> Seq<char> {
    "__unknown"@
}

impl Document {
    /// Makes the record of the file `name` at `path` in `directory`, with the
    /// metadata parsed from the file's `content`. `front` is what
    /// deserialising `DocumentMeta::front_matter(content)` gave.
    pub fn new(
        directory: uuid::Uuid,
        name: String,
        path: String,
        content: &str,
        front: Result<DocumentMeta, KnawledgeError>,
    ) -> (r: Result<(Document, DocumentMeta), KnawledgeError>)
        ensures
            match read(content@, front_view(front)) {
                Ok((meta, body)) => r matches Ok((document, m)) && m@ == meta && document@
                    == (DocumentView { file_name: name@, directory, path: path@ }),
                Err(e) => r matches Err(x) && x@ == e,
            },
    {
        match DocumentMeta::read_from_str(content, front) {
            Ok((meta, _)) => Ok((Document { file_name: name, directory, path }, meta)),
            Err(e) => Err(e),
        }
    }

    /// The file name behind the final segment of a path: the segment itself,
    /// or `__unknown` where the path has none that is UTF-8.
    pub fn name(segment: Option<&str>) -> (r: String)
        ensures
            r@ == match segment {
                Some(n) => n@,
                None => unknown_name(),
            },
    {
        match segment {
            Some(n) => n.to_owned(),
            None => "__unknown".to_owned(),
        }
    }
}

/// A document read in full: its body and its metadata.
#[derive(Debug, Clone, PartialEq, Eq)]
pub struct DocumentData {
    /// The Markdown that follows the front-matter.
    pub content: String,
    pub meta: DocumentMeta,
}

impl Default for DocumentData {
    fn default() -> (r: Self)
        ensures
            r.content@ == Seq::<char>::empty(),
            r.meta@ == MetaView::absent(),
    {
        DocumentData { content: String::new(), meta: DocumentMeta::default() }
    }
}

impl DocumentData {
    /// Parses a file's content and keeps the body beside the metadata.
    /// `front` is what deserialising `DocumentMeta::front_matter(content)`
    /// gave.
    pub fn read_from_str(content: &str, front: Result<DocumentMeta, KnawledgeError>) -> (r: Result<
        DocumentData,
        KnawledgeError,
    >)
        ensures
            match read(content@, front_view(front)) {
                Ok((meta, body)) => r matches Ok(data) && data.meta@ == meta && data.content@
                    == body,
                Err(e) => r matches Err(x) && x@ == e,
            },
    {
        match DocumentMeta::read_from_str(content, front) {
            Ok((meta, body)) => Ok(DocumentData { content: body.to_owned(), meta }),
            Err(e) => Err(e),
        }
    }
}

/// The catalog's record of one directory. A directory without a parent is a
/// root.
#[derive(Debug, Clone, PartialEq, Eq)]
pub struct Directory {
    pub id: uuid::Uuid,
    /// The final segment of the path.
    pub name: String,
    pub parent: Option<uuid::Uuid>,
    /// Canonicalised path.
    pub path: String,
    /// Microseconds since the Unix epoch.
    pub created_at: i64,
    /// Microseconds since the Unix epoch.
    pub updated_at: i64,
}

/// A directory as contracts see it.
pub ghost struct DirectoryView {
    pub id: uuid::Uuid,
    pub name: Seq<char>,
    pub parent: Option<uuid::Uuid>,
    pub path: Seq<char>,
    pub created_at: i64,
    pub updated_at: i64,
}

impl View for Directory {
    type V = DirectoryView;

    open spec fn view(&self) -> DirectoryView {
        DirectoryView {
            id: self.id,
            name: self.name@,
            parent: self.parent,
            path: self.path@,
            created_at: self.created_at,
            updated_at: self.updated_at,
        }
    }
}

impl Default for Directory {
    fn default() -> (r: Self)
        ensures
            r.name@ == Seq::<char>::empty(),
            r.parent is None,
            r.path@ == Seq::<char>::empty(),
            r.created_at == 0,
            r.updated_at == 0,
    {
        Directory {
            id: uuid::Uuid::default(),
            name: String::new(),
            parent: None,
            path: String::new(),
            created_at: 0,
            updated_at: 0,
        }
    }
}

/// The estimate is six tenths of the whole two-hundreds of tokens, rounded
/// down: nothing below 200 tokens, and exactly `(tokens / 200) * 3 / 5`
/// wherever that fits in an `i32`.
pub proof fn lemma_reading_time_formula(tokens: nat)
    ensures
        tokens < 200 ==> reading_time(tokens) == 0,
        (tokens / 200) * 3 / 5 <= i32::MAX ==> reading_time(tokens) == (tokens / 200) * 3 / 5,
        5 * reading_time(tokens) <= 3 * (tokens / 200),
        reading_time(tokens) < i32::MAX ==> 3 * (tokens / 200) < 5 * (reading_time(tokens) + 1),
{
}

/// The first fence at or after `from` is at `k` when a fence starts at `k`
/// and none starts in between.
pub proof fn lemma_next_fence(s: Seq<char>, from: int, k: int)
    requires
        0 <= from <= k,
        fence_at(s, k),
        forall|j: int| from <= j < k ==> !fence_at(s, j),
    ensures
        next_fence(s, from) == Some(k),
    decreases k - from,
{
    if from < k {
        lemma_next_fence(s, from + 1, k);
    }
}

/// `next_fence` finds the first fence: one starts where it points and none
/// before, and where it finds nothing there is none.
pub proof fn lemma_next_fence_first(s: Seq<char>, from: int)
    requires
        0 <= from,
    ensures
        match next_fence(s, from) {
            Some(k) => from <= k && fence_at(s, k) && forall|j: int|
                from <= j < k ==> !fence_at(s, j),
            None => forall|j: int| from <= j ==> !fence_at(s, j),
        },
    decreases s.len() - from,
{
    if from + 3 <= s.len() && !fence_at(s, from) {
        lemma_next_fence_first(s, from + 1);
    }
}

/// Front-matter put between two fences in front of a body comes back as it
/// was put in: the content frames into that front-matter and that body, and
/// parsing it completes what deserialising gave with the body's reading time
/// and, for want of a title, the body's heading. A failed deserialisation
/// fails the parse with that failure.
///
/// This holds where the front-matter is not empty and no fence starts inside
/// it, its last characters taken together with the closing fence.
pub proof fn lemma_front_matter_round_trip(
    front: Seq<char>,
    body: Seq<char>,
    parsed: Result<MetaView, ErrorView>,
)
    requires
        front.len() > 0,
        forall|i: int| 0 <= i < front.len() ==> !fence_at(front + fence(), i),
    ensures
        framing(fence() + front + fence() + body) == (Framing::Fenced { front, body }),
        front_matter_of(fence() + front + fence() + body) == Some(front),
        read(fence() + front + fence() + body, parsed) == match parsed {
            Ok(meta) => Ok(
                (
                    MetaView {
                        custom_id: meta.custom_id,
                        title: if meta.title is Some {
                            meta.title
                        } else {
                            title_from_h1(body)
                        },
                        reading_time: Some(reading_time(token_count(body))),
                        tags: meta.tags,
                    },
                    body,
                ),
            ),
            Err(e) => Err(e),
        },
{
    let s = fence() + front + fence() + body;
    let close = 3 + front.len() as int;
    assert(fence_at(s, 0));
    assert(fence_at(s, close));
    assert forall|j: int| 3 <= j < close implies !fence_at(s, j) by {
        let inner = front + fence();
        assert(s[j] == inner[j - 3]);
        assert(s[j + 1] == inner[j - 2]);
        assert(s[j + 2] == inner[j - 1]);
        assert(!fence_at(inner, j - 3));
    }
    lemma_next_fence(s, 3, close);
    assert(s.subrange(3, close) =~= front);
    assert(s.skip(close + 3) =~= body);
}

} // verus!
