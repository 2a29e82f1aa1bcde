//! EPUB metadata and chapter listing over the parts of a book that the logic
//! reads: metadata entries, the spine, the manifest and the table of contents.
use vstd::prelude::*;
use crate::chars::{chars_of, string_of_range, decimal, decimal_chars, concat_str, string_of};
use crate::text::html_to_text;

verus! {

/// One chapter in reading order.
#[derive(Debug, Clone)]
pub struct ChapterInfo {
    pub index: usize,
    pub id: String,
    pub title: Option<String>,
    pub path: Option<String>,
}

/// Book-level metadata.
#[derive(Debug, Clone)]
pub struct BookMeta {
    pub title: Option<String>,
    pub creators: Vec<String>,
    pub language: Option<String>,
    pub publisher: Option<String>,
    pub identifier: Option<String>,
    pub description: Option<String>,
    pub chapter_count: usize,
}

/// A metadata entry: a Dublin Core property and its value.
#[derive(Debug, Clone)]
pub struct MetadataEntry {
    pub property: String,
    pub value: String,
}

/// A manifest item: its id and its path inside the archive.
#[derive(Debug, Clone)]
pub struct Resource {
    pub id: String,
    pub path: String,
}

/// A table-of-contents entry with its nested entries.
#[derive(Debug)]
pub struct TocEntry {
    pub label: String,
    pub content: String,
    pub children: Vec<TocEntry>,
}

/// What the library reads of an opened EPUB.
#[derive(Debug)]
pub struct BookContents {
    pub metadata: Vec<MetadataEntry>,
    pub unique_identifier: Option<String>,
    /// The `idref` of each spine item, in reading order.
    pub spine: Vec<String>,
    pub resources: Vec<Resource>,
    pub toc: Vec<TocEntry>,
}

// ---------------------------------------------------------------------------
// Specifications
// ---------------------------------------------------------------------------

pub open spec fn opt_view(o: Option<String>) -> Option<Seq<char>> {
    match o {
        Some(s) => Some(s@),
        None => None,
    }
}

/// `r` is the value of the first entry whose property is `prop`, or `None` when
/// no entry has that property.
pub open spec fn is_first_entry_value(md: Seq<MetadataEntry>, prop: Seq<char>, r: Option<Seq<char>>) -> bool {
    match r {
        Some(v) => exists|i: int|
            0 <= i < md.len() && (#[trigger] md[i]).property@ == prop && md[i].value@ == v && forall|j: int|
                0 <= j < i ==> (#[trigger] md[j]).property@ != prop,
        None => forall|i: int| 0 <= i < md.len() ==> (#[trigger] md[i]).property@ != prop,
    }
}

/// The value of the first metadata entry with the given property.
pub open spec fn first_value(md: Seq<MetadataEntry>, prop: Seq<char>) -> Option<Seq<char>>
    decreases md.len(),
{
    if md.len() == 0 {
        None
    } else if md[0].property@ == prop {
        Some(md[0].value@)
    } else {
        first_value(md.drop_first(), prop)
    }
}

/// The values of all metadata entries with the given property, in order.
pub open spec fn all_values(md: Seq<MetadataEntry>, prop: Seq<char>) -> Seq<Seq<char>>
    decreases md.len(),
{
    if md.len() == 0 {
        Seq::empty()
    } else {
        let r = all_values(md.drop_last(), prop);
        if md.last().property@ == prop {
            r.push(md.last().value@)
        } else {
            r
        }
    }
}

/// The path of the first manifest item with the given id.
pub open spec fn resource_path(res: Seq<Resource>, id: Seq<char>) -> Option<Seq<char>>
    decreases res.len(),
{
    if res.len() == 0 {
        None
    } else if res[0].id@ == id {
        Some(res[0].path@)
    } else {
        resource_path(res.drop_first(), id)
    }
}

/// `s` up to its first `#` (a path without its fragment).
pub open spec fn fragment_stripped(s: Seq<char>) -> Seq<char>
    decreases s.len(),
{
    if s.len() == 0 || s[0] == '#' {
        Seq::empty()
    } else {
        seq![s[0]] + fragment_stripped(s.drop_first())
    }
}

/// A name for `Path::eq` (component-wise path equality) on two path strings.
pub uninterp spec fn std_path_eq(a: Seq<char>, b: Seq<char>) -> bool;

/// A name for `Path::ends_with` (the components of `b` end those of `a`).
pub uninterp spec fn std_path_ends_with(a: Seq<char>, b: Seq<char>) -> bool;

/// Two paths name the same chapter file: equal, or one ends with the other.
pub open spec fn paths_match_spec(a: Seq<char>, b: Seq<char>) -> bool {
    std_path_eq(a, b) || std_path_ends_with(a, b) || std_path_ends_with(b, a)
}

/// The label of the first entry, in reading order of the table of contents
/// (each entry before its children, children before later siblings), whose
/// target without fragment matches `path`.
pub open spec fn toc_title(toc: Seq<TocEntry>, path: Seq<char>) -> Option<Seq<char>>
    decreases toc,
{
    if toc.len() == 0 {
        None
    } else if paths_match_spec(fragment_stripped(toc[0].content@), path) {
        Some(toc[0].label@)
    } else {
        match toc_title(toc[0].children@, path) {
            Some(t) => Some(t),
            None => toc_title(toc.drop_first(), path),
        }
    }
}

/// The metadata of a book, as `Book::meta` reports it.
pub open spec fn meta_matches(m: BookMeta, c: BookContents) -> bool {
    &&& opt_view(m.title) == first_value(c.metadata@, "title"@)
    &&& m.creators@.map_values(|s: String| s@) == all_values(c.metadata@, "creator"@)
    &&& opt_view(m.language) == first_value(c.metadata@, "language"@)
    &&& opt_view(m.publisher) == first_value(c.metadata@, "publisher"@)
    &&& opt_view(m.identifier) == (match c.unique_identifier {
        Some(u) => Some(u@),
        None => first_value(c.metadata@, "identifier"@),
    })
    &&& opt_view(m.description) == first_value(c.metadata@, "description"@)
    &&& m.chapter_count == c.spine@.len()
}

/// The chapter listing of a book, as `Book::chapters` reports it.
pub open spec fn chapter_matches(ch: ChapterInfo, c: BookContents, i: int) -> bool {
    let id = c.spine@[i]@;
    let path = resource_path(c.resources@, id);
    &&& ch.index == i
    &&& ch.id@ == id
    &&& opt_view(ch.path) == path
    &&& opt_view(ch.title) == (match path {
        Some(p) => toc_title(c.toc@, p),
        None => None,
    })
}

/// The error for a chapter index past the end of the spine.
pub open spec fn chapter_out_of_range_message(index: nat, n: nat) -> Seq<char> {
    "chapter index "@ + decimal(index) + " out of range (0.."@ + decimal(n) + ")"@
}

// ---------------------------------------------------------------------------
// Executable code
// ---------------------------------------------------------------------------

fn strs_eq(a: &String, b: &str) -> (r: bool)
    ensures
        r == (a@ == b@),
{
    crate::chars::chars_eq_str(&chars_of(a.as_str()), b)
}

/// The value of the first metadata entry with the given property (`EpubDoc::mdata`).
fn metadata_first(contents: &BookContents, property: &str) -> (r: Option<String>)
    ensures
        opt_view(r) == first_value(contents.metadata@, property@),
{
    let md = &contents.metadata;
    let mut i: usize = 0;
    assert(md@.skip(0) =~= md@);
    while i < md.len()
        invariant
            i <= md@.len(),
            md == &contents.metadata,
            first_value(md@, property@) == first_value(md@.skip(i as int), property@),
        decreases md@.len() - i,
    {
        proof {
            let t = md@.skip(i as int);
            assert(t[0] == md@[i as int]);
            assert(t.drop_first() =~= md@.skip(i + 1));
        }
        if strs_eq(&md[i].property, property) {
            return Some(md[i].value.clone());
        }
        i += 1;
    }
    None
}

/// The values of all metadata entries with the given property.
fn metadata_values(contents: &BookContents, property: &str) -> (r: Vec<String>)
    ensures
        r@.map_values(|s: String| s@) == all_values(contents.metadata@, property@),
{
    let md = &contents.metadata;
    let mut r: Vec<String> = Vec::new();
    let mut i: usize = 0;
    while i < md.len()
        invariant
            i <= md@.len(),
            md == &contents.metadata,
            r@.map_values(|s: String| s@) == all_values(md@.take(i as int), property@),
        decreases md@.len() - i,
    {
        let ghost old_r = r@;
        if strs_eq(&md[i].property, property) {
            r.push(md[i].value.clone());
        }
        proof {
            let t = md@.take(i + 1);
            assert(t.drop_last() =~= md@.take(i as int));
            assert(t.last() == md@[i as int]);
            assert(r@.map_values(|s: String| s@) =~= all_values(t, property@));
        }
        i += 1;
    }
    assert(md@.take(md@.len() as int) =~= md@);
    r
}

/// Metadata for a book (`Book::meta`).
pub fn book_meta(contents: &BookContents) -> (m: BookMeta)
    ensures
        meta_matches(m, *contents),
        is_first_entry_value(contents.metadata@, "title"@, opt_view(m.title)),
        is_first_entry_value(contents.metadata@, "language"@, opt_view(m.language)),
        is_first_entry_value(contents.metadata@, "publisher"@, opt_view(m.publisher)),
        is_first_entry_value(contents.metadata@, "description"@, opt_view(m.description)),
        contents.unique_identifier is None ==> is_first_entry_value(
            contents.metadata@,
            "identifier"@,
            opt_view(m.identifier),
        ),
        m.creators@.map_values(|s: String| s@) == entries_with(contents.metadata@, "creator"@).map_values(
            |e: MetadataEntry| e.value@,
        ),
{
    let identifier = match &contents.unique_identifier {
        Some(u) => Some(u.clone()),
        None => metadata_first(contents, "identifier"),
    };
    proof {
        lemma_first_value_is_first(contents.metadata@, "title"@);
        lemma_first_value_is_first(contents.metadata@, "language"@);
        lemma_first_value_is_first(contents.metadata@, "publisher"@);
        lemma_first_value_is_first(contents.metadata@, "description"@);
        lemma_first_value_is_first(contents.metadata@, "identifier"@);
        lemma_all_values_are_entries(contents.metadata@, "creator"@);
    }
    BookMeta {
        title: metadata_first(contents, "title"),
        creators: metadata_values(contents, "creator"),
        language: metadata_first(contents, "language"),
        publisher: metadata_first(contents, "publisher"),
        identifier,
        description: metadata_first(contents, "description"),
        chapter_count: contents.spine.len(),
    }
}

/// The path of the manifest item with the given id.
fn lookup_resource(resources: &Vec<Resource>, id: &String) -> (r: Option<String>)
    ensures
        opt_view(r) == resource_path(resources@, id@),
{
    let mut i: usize = 0;
    assert(resources@.skip(0) =~= resources@);
    while i < resources.len()
        invariant
            i <= resources@.len(),
            resource_path(resources@, id@) == resource_path(resources@.skip(i as int), id@),
        decreases resources@.len() - i,
    {
        proof {
            let t = resources@.skip(i as int);
            assert(t[0] == resources@[i as int]);
            assert(t.drop_first() =~= resources@.skip(i + 1));
        }
        if strs_eq(&resources[i].id, id.as_str()) {
            return Some(resources[i].path.clone());
        }
        i += 1;
    }
    None
}

/// The part of a path before its `#fragment`.
pub fn strip_fragment(path: &str) -> (r: String)
    ensures
        r@ == fragment_stripped(path@),
{
    let v = chars_of(path);
    let mut i: usize = 0;
    assert(v@.skip(0) =~= v@);
    assert(v@.take(0) + fragment_stripped(v@) =~= fragment_stripped(v@));
    while i < v.len() && v[i] != '#'
        invariant
            i <= v@.len(),
            fragment_stripped(v@) == v@.take(i as int) + fragment_stripped(v@.skip(i as int)),
        decreases v@.len() - i,
    {
        proof {
            let t = v@.skip(i as int);
            assert(t[0] == v@[i as int]);
            assert(t.drop_first() =~= v@.skip(i + 1));
            assert(v@.take(i + 1) =~= v@.take(i as int).push(v@[i as int]));
        }
        i += 1;
    }
    proof {
        let t = v@.skip(i as int);
        if i < v@.len() {
            assert(t[0] == v@[i as int]);
        }
        assert(v@.take(i as int) + fragment_stripped(t) =~= v@.subrange(0, i as int));
    }
    string_of_range(&v, 0, i)
}

/// `Path::new(a) == Path::new(b)`: component-wise equality of two paths.
#[verifier::external_body]
fn path_eq(a: &str, b: &str) -> (r: bool)
    ensures
        r == std_path_eq(a@, b@),
{
    std::path::Path::new(a) == std::path::Path::new(b)
}

/// `Path::new(a).ends_with(b)`: the components of `b` end those of `a`.
#[verifier::external_body]
fn path_ends_with(a: &str, b: &str) -> (r: bool)
    ensures
        r == std_path_ends_with(a@, b@),
{
    std::path::Path::new(a).ends_with(b)
}

/// Two paths name the same chapter file: equal, or one ends with the other.
pub fn paths_match(a: &str, b: &str) -> (r: bool)
    ensures
        r == paths_match_spec(a@, b@),
{
    path_eq(a, b) || path_ends_with(a, b) || path_ends_with(b, a)
}

/// The title of the first table-of-contents entry that points at `path`.
pub fn find_toc_title(toc: &Vec<TocEntry>, path: &str) -> (r: Option<String>)
    ensures
        opt_view(r) == toc_title(toc@, path@),
    decreases toc@,
{
    let mut i: usize = 0;
    assert(toc@.skip(0) =~= toc@);
    while i < toc.len()
        invariant
            i <= toc@.len(),
            toc_title(toc@, path@) == toc_title(toc@.skip(i as int), path@),
        decreases toc@.len() - i,
    {
        let nav = &toc[i];
        proof {
            let t = toc@.skip(i as int);
            assert(t[0] == toc@[i as int]);
            assert(t.drop_first() =~= toc@.skip(i + 1));
        }
        let nav_path = strip_fragment(nav.content.as_str());
        if paths_match(nav_path.as_str(), path) {
            return Some(nav.label.clone());
        }
        proof {
            assert(decreases_to!(toc@ => toc@[i as int]));
        }
        match find_toc_title(&nav.children, path) {
            Some(t) => {
                return Some(t);
            },
            None => {},
        }
        i += 1;
    }
    None
}

/// Spine chapters with their manifest paths and table-of-contents titles
/// (`Book::chapters`).
pub fn book_chapters(contents: &BookContents) -> (r: Vec<ChapterInfo>)
    ensures
        r@.len() == contents.spine@.len(),
        forall|i: int| 0 <= i < r@.len() ==> chapter_matches(#[trigger] r@[i], *contents, i),
{
    let mut r: Vec<ChapterInfo> = Vec::new();
    let mut i: usize = 0;
    while i < contents.spine.len()
        invariant
            i <= contents.spine@.len(),
            r@.len() == i,
            forall|k: int| 0 <= k < i ==> chapter_matches(#[trigger] r@[k], *contents, k),
        decreases contents.spine@.len() - i,
    {
        let id = contents.spine[i].clone();
        let path = lookup_resource(&contents.resources, &id);
        let title = match &path {
            Some(p) => find_toc_title(&contents.toc, p.as_str()),
            None => None,
        };
        r.push(ChapterInfo { index: i, id, title, path });
        i += 1;
    }
    r
}

/// Checks a spine chapter index against the number of chapters.
pub fn check_chapter_index(index: usize, n: usize) -> (r: Result<(), String>)
    ensures
        index < n ==> r is Ok,
        index >= n ==> (r matches Err(e) && e@ == chapter_out_of_range_message(index as nat, n as nat)),
{
    if index >= n {
        let a = concat_str("chapter index ", string_of(&decimal_chars(index)).as_str());
        let b = concat_str(a.as_str(), " out of range (0..");
        let c = concat_str(b.as_str(), string_of(&decimal_chars(n)).as_str());
        Err(concat_str(c.as_str(), ")"))
    } else {
        Ok(())
    }
}

/// Plain text of a chapter from its XHTML source (`Book::chapter_text` once the
/// chapter has been read from the archive).
pub fn chapter_text_from_xhtml(xhtml: &str) -> (r: String)
    ensures
        r@ == crate::text::normalized(crate::text::rendered_or_empty(
            crate::text::html2text_rendering(crate::text::body_or_all(xhtml@), 100),
        )),
{
    html_to_text(xhtml)
}


/// The entries whose property is `prop`, in order.
pub open spec fn entries_with(md: Seq<MetadataEntry>, prop: Seq<char>) -> Seq<MetadataEntry> {
    md.filter(|e: MetadataEntry| e.property@ == prop)
}

/// A metadata lookup gives the value of the first entry with the asked
/// property, and nothing only when no entry has it.
pub proof fn lemma_first_value_is_first(md: Seq<MetadataEntry>, prop: Seq<char>)
    ensures
        is_first_entry_value(md, prop, first_value(md, prop)),
    decreases md.len(),
{
    if md.len() > 0 {
        let rest = md.drop_first();
        lemma_first_value_is_first(rest, prop);
        if md[0].property@ == prop {
            assert(md[0].property@ == prop);
        } else {
            match first_value(rest, prop) {
                Some(v) => {
                    let i = choose|i: int|
                        0 <= i < rest.len() && (#[trigger] rest[i]).property@ == prop && rest[i].value@ == v
                            && forall|j: int| 0 <= j < i ==> (#[trigger] rest[j]).property@ != prop;
                    assert(md[i + 1] == rest[i]);
                    assert forall|j: int| 0 <= j < i + 1 implies (#[trigger] md[j]).property@ != prop by {
                        if j > 0 {
                            assert(md[j] == rest[j - 1]);
                        }
                    }
                },
                None => {
                    assert forall|i: int| 0 <= i < md.len() implies (#[trigger] md[i]).property@ != prop by {
                        if i > 0 {
                            assert(md[i] == rest[i - 1]);
                        }
                    }
                },
            }
        }
    }
}

/// The values of a property are the values of the entries with it, in order.
pub proof fn lemma_all_values_are_entries(md: Seq<MetadataEntry>, prop: Seq<char>)
    ensures
        all_values(md, prop) == entries_with(md, prop).map_values(|e: MetadataEntry| e.value@),
    decreases md.len(),
{
    reveal(Seq::filter);
    if md.len() > 0 {
        lemma_all_values_are_entries(md.drop_last(), prop);
        let f = entries_with(md.drop_last(), prop);
        if md.last().property@ == prop {
            assert(f.push(md.last()).map_values(|e: MetadataEntry| e.value@) =~= f.map_values(
                |e: MetadataEntry| e.value@,
            ).push(md.last().value@));
        }
    } else {
        assert(entries_with(md, prop).map_values(|e: MetadataEntry| e.value@) =~= Seq::<Seq<char>>::empty());
    }
}


/// Stripping the fragment keeps exactly the part of the path before its first
/// `#`: a prefix of the path with no `#` in it, followed in the path by `#`
/// unless it is the whole path.
pub proof fn lemma_fragment_stripped_is_prefix(s: Seq<char>)
    ensures
        fragment_stripped(s).len() <= s.len(),
        fragment_stripped(s) == s.take(fragment_stripped(s).len() as int),
        forall|k: int| 0 <= k < fragment_stripped(s).len() ==> #[trigger] fragment_stripped(s)[k] != '#',
        fragment_stripped(s).len() < s.len() ==> s[fragment_stripped(s).len() as int] == '#',
    decreases s.len(),
{
    if s.len() > 0 && s[0] != '#' {
        let rest = s.drop_first();
        lemma_fragment_stripped_is_prefix(rest);
        let r = fragment_stripped(s);
        assert(r == seq![s[0]] + fragment_stripped(rest));
        assert(r =~= s.take(r.len() as int));
        assert forall|k: int| 0 <= k < r.len() implies #[trigger] r[k] != '#' by {
            if k > 0 {
                assert(r[k] == fragment_stripped(rest)[k - 1]);
            }
        }
        if r.len() < s.len() {
            assert(s[r.len() as int] == rest[fragment_stripped(rest).len() as int]);
        }
    } else {
        assert(s.take(0) =~= Seq::<char>::empty());
    }
}

} // verus!
