//! The markdown list of the files in an output directory, and the document
//! that the list stands in.

use vstd::prelude::*;
use vstd::slice::slice_subrange;

use crate::files::{description, description_for};
use crate::order::{
    before, before_is_smaller, bytes_of, is_name_order, listing_order, listing_order_is_by_name,
    listing_order_is_sorted, not_after, order_of, smaller,
};
use crate::size::{human_readable_size, size_text};
use crate::text::{
    chars_of, contains_text, find, find_text, is_first, lemma_find, lemma_find_in_front,
    lemma_not_across, lemma_occurs_behind, lemma_occurs_in_front, occurs_at, push_chars,
};

verus! {

/// Something inside a directory of the listed directory.
#[derive(Debug)]
pub struct Child {
    /// The bytes of its name, by which it is ordered.
    pub raw_name: Vec<u8>,
    /// Its name as text.
    pub name: String,
    pub is_dir: bool,
    /// The size of a file in bytes.
    pub size: u64,
}

/// What an entry of the listed directory is.
#[derive(Debug)]
pub enum Kind {
    /// A file with its size in bytes.
    File(u64),
    /// A directory with what is inside it.
    Dir(Vec<Child>),
    /// A directory that could not be read.
    UnreadableDir,
}

/// An entry of the listed directory.
#[derive(Debug)]
pub struct Entry {
    /// The bytes of its name, by which it is ordered.
    pub raw_name: Vec<u8>,
    /// Its name as text.
    pub name: String,
    pub kind: Kind,
}

/// Why a list could not be put into a template.
#[derive(Clone, Copy, Debug, PartialEq, Eq, Structural)]
pub enum TemplateError {
    /// The template has no start marker.
    MissingStart,
    /// The template has no end marker behind its start marker.
    MissingEnd,
}

/// The marker in front of the file list.
pub const START_MARKER: &'static str = "<!-- AUTO_FILE_LIST_START -->";

/// The marker behind the file list.
pub const END_MARKER: &'static str = "<!-- AUTO_FILE_LIST_END -->";

/// The key by which an entry is ordered: a byte that puts directories in front
/// of files, then its name.
pub open spec fn entry_key(e: Entry) -> Seq<u8> {
    seq![
        if e.kind is File {
            1u8
        } else {
            0u8
        },
    ] + e.raw_name@
}

/// The keys of the entries.
pub open spec fn entry_keys(entries: Seq<Entry>) -> Seq<Seq<u8>> {
    entries.map_values(|e: Entry| entry_key(e))
}

/// The keys of what is inside a directory.
pub open spec fn child_keys(children: Seq<Child>) -> Seq<Seq<u8>> {
    children.map_values(|c: Child| c.raw_name@)
}

/// The description of a file as it stands at the end of its line.
pub open spec fn description_part(name: Seq<char>) -> Seq<char> {
    if description(name).len() == 0 {
        Seq::empty()
    } else {
        " - **"@ + description(name) + "**"@
    }
}

/// The line of a file: a link with its size and its description, if any.
pub open spec fn file_line(
    bullet: Seq<char>,
    name: Seq<char>,
    path: Seq<char>,
    size: nat,
) -> Seq<char> {
    bullet + "["@ + name + "](./"@ + path + ") *("@ + size_text(size) + ")*"@ + description_part(
        name,
    )
}

/// The line of something inside the directory `dir`.
pub open spec fn child_line(dir: Seq<char>, c: Child) -> Seq<char> {
    if c.is_dir {
        "  - [**"@ + c.name@ + "/**](./"@ + dir + "/"@ + c.name@ + "/)"@
    } else {
        file_line("  - "@, c.name@, dir + "/"@ + c.name@, c.size as nat)
    }
}

/// The lines of what is inside the directory `dir`, ordered by name.
pub open spec fn child_lines(dir: Seq<char>, children: Seq<Child>) -> Seq<Seq<char>> {
    listing_order(child_keys(children)).map_values(|i: int| child_line(dir, children[i]))
}

/// The lines of an entry: one for a file, and for a directory a bold heading
/// and the lines of what is inside it.
pub open spec fn entry_lines(e: Entry) -> Seq<Seq<char>> {
    match e.kind {
        Kind::File(size) => seq![file_line("- "@, e.name@, e.name@, size as nat)],
        Kind::Dir(children) => seq!["- **"@ + e.name@ + "/**"@] + child_lines(e.name@, children@),
        Kind::UnreadableDir => Seq::empty(),
    }
}

/// The lines of the entries with the given numbers, one entry after another.
pub open spec fn list_lines(entries: Seq<Entry>, order: Seq<int>) -> Seq<Seq<char>>
    decreases order.len(),
{
    if order.len() == 0 {
        Seq::empty()
    } else {
        list_lines(entries, order.drop_last()) + entry_lines(entries[order.last()])
    }
}

/// The lines with a line break between each two.
pub open spec fn join_lines(lines: Seq<Seq<char>>) -> Seq<char>
    decreases lines.len(),
{
    if lines.len() == 0 {
        Seq::empty()
    } else if lines.len() == 1 {
        lines[0]
    } else {
        join_lines(lines.drop_last()) + "\n"@ + lines.last()
    }
}

/// The markdown list of a directory: its directories, then its files, each
/// group ordered by name.
pub open spec fn markdown_list(entries: Seq<Entry>) -> Seq<char> {
    join_lines(list_lines(entries, listing_order(entry_keys(entries))))
}

/// `template` with what stands between its markers replaced by `list`: the
/// first start marker, and the first end marker behind it.
pub open spec fn filled(template: Seq<char>, list: Seq<char>) -> Result<Seq<char>, TemplateError> {
    match find(template, START_MARKER@) {
        None => Err(TemplateError::MissingStart),
        Some(start) => {
            let inner = start + START_MARKER@.len();
            match find(template.skip(inner), END_MARKER@) {
                None => Err(TemplateError::MissingEnd),
                Some(len) => Ok(
                    template.take(inner) + "\n\n"@ + list + "\n\n"@ + template.skip(inner + len),
                ),
            }
        },
    }
}

/// The document for `list` where there is no template.
pub open spec fn fresh_document(list: Seq<char>) -> Seq<char> {
    "# Icons\n\n"@ + START_MARKER@ + "\n\n"@ + list + "\n\n"@ + END_MARKER@ + "\n"@
}

/// The document for `list`: the template with the list filled in, or a fresh
/// document where there is no template.
pub open spec fn document(template: Option<Seq<char>>, list: Seq<char>) -> Result<
    Seq<char>,
    TemplateError,
> {
    match template {
        Some(t) => filled(t, list),
        None => Ok(fresh_document(list)),
    }
}

/// What the strings hold.
pub open spec fn texts(lines: Seq<String>) -> Seq<Seq<char>> {
    lines.map_values(|s: String| s@)
}

/// Of two entries, a directory stands before a file; otherwise the order of
/// their names decides.
pub proof fn directories_come_first(a: Entry, b: Entry)
    ensures
        before(entry_key(a), entry_key(b)) <==> if a.kind is File == b.kind is File {
            before(a.raw_name@, b.raw_name@)
        } else {
            b.kind is File
        },
{
    assert(entry_key(a).drop_first() =~= a.raw_name@);
    assert(entry_key(b).drop_first() =~= b.raw_name@);
}

/// In the list every directory stands before every file, and within either
/// group the names are in order.
pub proof fn list_is_in_groups(entries: Seq<Entry>, p: int, q: int)
    requires
        0 <= p < q < entries.len(),
    ensures
        ({
            let order = listing_order(entry_keys(entries));
            let a = entries[order[p]];
            let b = entries[order[q]];
            &&& order.len() == entries.len()
            &&& a.kind is File ==> b.kind is File
            &&& a.kind is File == b.kind is File ==> before(a.raw_name@, b.raw_name@)
                || a.raw_name@ == b.raw_name@ && order[p] < order[q]
        }),
{
    let keys = entry_keys(entries);
    let order = listing_order(keys);
    listing_order_is_sorted(keys);
    assert(order.contains(order[p]) && order.contains(order[q]));
    let a = entries[order[p]];
    let b = entries[order[q]];
    assert(not_after(keys, order[p], order[q]));
    directories_come_first(a, b);
    if entry_key(a) == entry_key(b) {
        assert(entry_key(a)[0] == entry_key(b)[0]);
        assert(entry_key(a).drop_first() =~= a.raw_name@);
        assert(entry_key(b).drop_first() =~= b.raw_name@);
        assert(order[p] != order[q]);
    }
}

/// A list that holds no end marker holds none either between the line breaks
/// that are put around it.
proof fn lemma_end_marker_behind_list(list: Seq<char>, rest: Seq<char>)
    requires
        !contains_text(list, END_MARKER@),
        occurs_at(rest, END_MARKER@, 0),
    ensures
        find("\n\n"@ + list + "\n\n"@ + rest, END_MARKER@) == Some(4 + list.len() as int),
{
    reveal_strlit("\n\n");
    reveal_strlit("<!-- AUTO_FILE_LIST_END -->");
    let front = "\n\n"@ + list + "\n\n"@;
    let text = front + rest;
    let m = END_MARKER@;
    lemma_occurs_behind(front, rest, m, 0);
    assert forall|j: int| 0 <= j < front.len() implies !occurs_at(text, m, j) by {
        if j < 2 || j >= 2 + list.len() {
            lemma_not_across(text, m, j, 0);
        } else if j + m.len() <= 2 + list.len() {
            assert(text =~= ("\n\n"@ + list) + ("\n\n"@ + rest));
            lemma_occurs_in_front("\n\n"@ + list, "\n\n"@ + rest, m, j);
            lemma_occurs_behind("\n\n"@, list, m, j - 2);
        } else {
            let k = 2 + list.len() - j;
            assert(text[j + k] == '\n');
            assert(m[k] != '\n') by {
                lemma_end_marker_is_one_line(k);
            }
            lemma_not_across(text, m, j, k);
        }
    }
    assert(is_first(text, m, front.len() as int));
    lemma_find(text, m);
}

/// The end marker holds no line break.
proof fn lemma_end_marker_is_one_line(k: int)
    requires
        0 <= k < END_MARKER@.len(),
    ensures
        END_MARKER@[k] != '\n',
{
    reveal_strlit("<!-- AUTO_FILE_LIST_END -->");
}

/// Only what stands between the markers is replaced: the first start marker
/// and the text in front of it stay, and so do the next end marker and the
/// text behind it.
pub proof fn only_the_list_is_replaced(
    head: Seq<char>,
    between: Seq<char>,
    tail: Seq<char>,
    list: Seq<char>,
)
    requires
        find(head + START_MARKER@, START_MARKER@) == Some(head.len() as int),
        find(between + END_MARKER@, END_MARKER@) == Some(between.len() as int),
    ensures
        filled(head + START_MARKER@ + between + END_MARKER@ + tail, list) == Ok::<
            Seq<char>,
            TemplateError,
        >(head + START_MARKER@ + "\n\n"@ + list + "\n\n"@ + END_MARKER@ + tail),
{
    let front = head + START_MARKER@;
    let behind = between + END_MARKER@ + tail;
    let template = head + START_MARKER@ + between + END_MARKER@ + tail;
    assert(template =~= front + behind);
    lemma_find_in_front(front, behind, START_MARKER@);
    assert(template.skip(front.len() as int) =~= behind);
    lemma_find_in_front(between + END_MARKER@, tail, END_MARKER@);
    assert(template.take(front.len() as int) =~= front);
    assert(template.skip((front.len() + between.len()) as int) =~= END_MARKER@ + tail);
    assert(front + "\n\n"@ + list + "\n\n"@ + (END_MARKER@ + tail) =~= front + "\n\n"@ + list
        + "\n\n"@ + END_MARKER@ + tail);
}

/// A filled template can be filled again: what was filled in before leaves no
/// trace, as long as it held no end marker of its own.
pub proof fn refilling_replaces_the_list(template: Seq<char>, first: Seq<char>, second: Seq<char>)
    requires
        filled(template, first) is Ok,
        !contains_text(first, END_MARKER@),
    ensures
        filled(filled(template, first)->Ok_0, second) == filled(template, second),
{
    let start = find(template, START_MARKER@)->0;
    let inner = start + START_MARKER@.len();
    lemma_find(template, START_MARKER@);
    let tail = template.skip(inner);
    lemma_find(tail, END_MARKER@);
    let len = find(tail, END_MARKER@)->0;
    let head = template.take(inner);
    let rest = template.skip(inner + len);
    assert(rest =~= tail.skip(len));
    assert(occurs_at(rest, END_MARKER@, 0)) by {
        assert(rest.subrange(0, END_MARKER@.len() as int) =~= tail.subrange(
            len,
            len + END_MARKER@.len(),
        ));
    }
    let middle = "\n\n"@ + first + "\n\n"@;
    let once = filled(template, first)->Ok_0;
    assert(once =~= head + (middle + rest));
    assert(template =~= head + tail);
    lemma_occurs_in_front(head, middle + rest, START_MARKER@, start);
    lemma_occurs_in_front(head, tail, START_MARKER@, start);
    assert forall|j: int| 0 <= j < start implies !occurs_at(once, START_MARKER@, j) by {
        lemma_occurs_in_front(head, middle + rest, START_MARKER@, j);
        lemma_occurs_in_front(head, tail, START_MARKER@, j);
    }
    assert(is_first(once, START_MARKER@, start));
    lemma_find(once, START_MARKER@);
    assert(once.skip(inner) =~= middle + rest);
    lemma_end_marker_behind_list(first, rest);
    reveal_strlit("\n\n");
    assert(once.take(inner) =~= head);
    assert(once.skip(inner + middle.len()) =~= rest);
}

/// A fresh document serves as a template for the next list.
pub proof fn fresh_document_is_a_template(first: Seq<char>, second: Seq<char>)
    requires
        !contains_text(first, END_MARKER@),
    ensures
        filled(fresh_document(first), second) == Ok::<Seq<char>, TemplateError>(
            fresh_document(second),
        ),
{
    reveal_strlit("# Icons\n\n");
    reveal_strlit("<!-- AUTO_FILE_LIST_START -->");
    reveal_strlit("\n\n");
    let title = "# Icons\n\n"@;
    let head = title + START_MARKER@;
    let middle = "\n\n"@ + first + "\n\n"@;
    let rest = END_MARKER@ + "\n"@;
    let once = fresh_document(first);
    assert(once =~= head + (middle + rest));
    lemma_occurs_behind(title, START_MARKER@, START_MARKER@, 0);
    assert(START_MARKER@.subrange(0, START_MARKER@.len() as int) =~= START_MARKER@);
    lemma_occurs_in_front(head, middle + rest, START_MARKER@, title.len() as int);
    assert forall|j: int| 0 <= j < title.len() implies !occurs_at(once, START_MARKER@, j) by {
        assert(once[j] == title[j]);
        lemma_not_across(once, START_MARKER@, j, 0);
    }
    assert(is_first(once, START_MARKER@, title.len() as int));
    lemma_find(once, START_MARKER@);
    assert(once.skip(head.len() as int) =~= middle + rest);
    assert(rest.subrange(0, END_MARKER@.len() as int) =~= END_MARKER@);
    lemma_end_marker_behind_list(first, rest);
    assert(once.take(head.len() as int) =~= head);
    assert(once.skip((head.len() + middle.len()) as int) =~= rest);
    assert(fresh_document(second) =~= head + "\n\n"@ + second + "\n\n"@ + rest);
}

/// Appends the description of a file, if any, to its line.
fn push_description(line: &mut String, name: &str)
    ensures
        final(line)@ == old(line)@ + description_part(name@),
{
    let text = description_for(name);
    if !text.is_empty() {
        line.append(" - **");
        line.append(text);
        line.append("**");
    }
    proof {
        assert(line@ =~= old(line)@ + description_part(name@));
    }
}

/// The line of a file.
fn line_of_file(bullet: &str, name: &str, path: &str, size: u64) -> (r: String)
    ensures
        r@ == file_line(bullet@, name@, path@, size as nat),
{
    let mut r = bullet.to_owned();
    r.append("[");
    r.append(name);
    r.append("](./");
    r.append(path);
    r.append(") *(");
    r.append(human_readable_size(size).as_str());
    r.append(")*");
    push_description(&mut r, name);
    r
}

/// The line of something inside the directory `dir`.
fn line_of_child(dir: &str, c: &Child) -> (r: String)
    ensures
        r@ == child_line(dir@, *c),
{
    let mut path = dir.to_owned();
    path.append("/");
    path.append(c.name.as_str());
    if c.is_dir {
        let mut r = "  - [**".to_owned();
        r.append(c.name.as_str());
        r.append("/**](./");
        r.append(path.as_str());
        r.append("/)");
        proof {
            assert(r@ =~= child_line(dir@, *c));
        }
        r
    } else {
        line_of_file("  - ", c.name.as_str(), path.as_str(), c.size)
    }
}

/// Appends the lines of what is inside the directory `dir`.
fn push_child_lines(lines: &mut Vec<String>, dir: &str, children: &Vec<Child>)
    ensures
        texts(final(lines)@) == texts(old(lines)@) + child_lines(dir@, children@),
{
    let mut keys: Vec<Vec<u8>> = Vec::new();
    let mut i: usize = 0;
    while i < children.len()
        invariant
            i <= children@.len(),
            keys@.len() == i,
            forall|j: int| 0 <= j < i ==> #[trigger] keys@[j]@ == children@[j].raw_name@,
        decreases children@.len() - i,
    {
        let key = children[i].raw_name.clone();
        proof {
            assert(key@ =~= children@[i as int].raw_name@);
        }
        keys.push(key);
        i += 1;
    }
    proof {
        assert(bytes_of(keys@) =~= child_keys(children@));
    }
    let order = order_of(&keys);
    let ghost ints = order@.map_values(|i: usize| i as int);
    let ghost all = child_lines(dir@, children@);
    let ghost start = texts(lines@);
    proof {
        listing_order_is_sorted(child_keys(children@));
        assert(texts(lines@) =~= start + all.take(0));
    }
    let mut k: usize = 0;
    while k < order.len()
        invariant
            k <= order@.len(),
            keys@.len() == children@.len(),
            forall|k: int| 0 <= k < order@.len() ==> #[trigger] order@[k] < keys@.len(),
            ints == order@.map_values(|i: usize| i as int),
            ints == listing_order(child_keys(children@)),
            all == child_lines(dir@, children@),
            texts(lines@) == start + all.take(k as int),
        decreases order@.len() - k,
    {
        let ghost old_lines = lines@;
        let line = line_of_child(dir, &children[order[k]]);
        proof {
            assert(ints[k as int] == order@[k as int] as int);
            assert(all[k as int] == line@);
        }
        lines.push(line);
        proof {
            assert(texts(lines@) =~= texts(old_lines).push(line@));
            assert(start + all.take(k + 1) =~= (start + all.take(k as int)).push(all[k as int]));
        }
        k += 1;
    }
    proof {
        assert(all.take(all.len() as int) =~= all);
    }
}

/// The lines with a line break between each two.
fn join(lines: &Vec<String>) -> (r: String)
    ensures
        r@ == join_lines(texts(lines@)),
{
    let mut r = String::new();
    let ghost all = texts(lines@);
    let mut i: usize = 0;
    proof {
        assert(all.take(0) =~= Seq::empty());
    }
    while i < lines.len()
        invariant
            i <= lines@.len(),
            all == texts(lines@),
            r@ == join_lines(all.take(i as int)),
        decreases lines@.len() - i,
    {
        proof {
            let t = all.take(i + 1);
            assert(t.drop_last() =~= all.take(i as int));
            assert(t.last() == lines@[i as int]@);
            if i == 0 {
                assert(all.take(0) =~= Seq::empty());
                assert(r@ + lines@[0]@ =~= lines@[0]@);
            }
        }
        if i > 0 {
            r.append("\n");
        }
        r.append(lines[i].as_str());
        i += 1;
    }
    proof {
        assert(all.take(all.len() as int) =~= all);
    }
    r
}

/// Build the markdown file-list for a directory with the given entries.
///
/// Directories are rendered as bold headings with indented children; files as
/// links with size and an optional description. Where directories could not be
/// read, the number of the first of them in the order of the list is returned.
pub fn build_markdown_list(entries: &Vec<Entry>) -> (r: Result<String, usize>)
    ensures
        match r {
            Ok(list) => {
                &&& forall|i: int|
                    0 <= i < entries@.len() ==> #[trigger] entries@[i].kind !is UnreadableDir
                &&& list@ == markdown_list(entries@)
            },
            Err(i) => {
                let order = listing_order(entry_keys(entries@));
                exists|p: int|
                    {
                        &&& 0 <= p < order.len()
                        &&& #[trigger] order[p] == i
                        &&& entries@[order[p]].kind is UnreadableDir
                        &&& forall|q: int|
                            0 <= q < p ==> entries@[#[trigger] order[q]].kind !is UnreadableDir
                    }
            },
        },
{
    let mut keys: Vec<Vec<u8>> = Vec::new();
    let mut i: usize = 0;
    while i < entries.len()
        invariant
            i <= entries@.len(),
            keys@.len() == i,
            forall|j: int| 0 <= j < i ==> #[trigger] keys@[j]@ == entry_key(entries@[j]),
        decreases entries@.len() - i,
    {
        let mut key: Vec<u8> = Vec::new();
        match &entries[i].kind {
            Kind::File(_) => {
                key.push(1);
            },
            _ => {
                key.push(0);
            },
        }
        let mut name = entries[i].raw_name.clone();
        proof {
            assert(name@ =~= entries@[i as int].raw_name@);
        }
        key.append(&mut name);
        proof {
            assert(key@ =~= entry_key(entries@[i as int]));
        }
        keys.push(key);
        i += 1;
    }
    proof {
        assert(bytes_of(keys@) =~= entry_keys(entries@));
    }
    let order = order_of(&keys);
    let ghost ints = order@.map_values(|i: usize| i as int);
    proof {
        listing_order_is_sorted(entry_keys(entries@));
        assert(ints.take(0) =~= Seq::empty());
    }
    let mut lines: Vec<String> = Vec::new();
    proof {
        assert(texts(lines@) =~= Seq::empty());
    }
    let mut k: usize = 0;
    while k < order.len()
        invariant
            k <= order@.len(),
            keys@.len() == entries@.len(),
            forall|k: int| 0 <= k < order@.len() ==> #[trigger] order@[k] < keys@.len(),
            ints == order@.map_values(|i: usize| i as int),
            ints == listing_order(entry_keys(entries@)),
            texts(lines@) == list_lines(entries@, ints.take(k as int)),
            forall|q: int| 0 <= q < k ==> entries@[#[trigger] ints[q]].kind !is UnreadableDir,
        decreases order@.len() - k,
    {
        let ghost old_lines = lines@;
        let e = &entries[order[k]];
        proof {
            assert(ints[k as int] == order@[k as int] as int);
            let t = ints.take(k + 1);
            assert(t.drop_last() =~= ints.take(k as int));
            assert(t.last() == order@[k as int] as int);
        }
        match &e.kind {
            Kind::File(size) => {
                let line = line_of_file("- ", e.name.as_str(), e.name.as_str(), *size);
                lines.push(line);
                proof {
                    assert(texts(lines@) =~= texts(old_lines) + seq![line@]);
                }
            },
            Kind::Dir(children) => {
                let mut line = "- **".to_owned();
                line.append(e.name.as_str());
                line.append("/**");
                lines.push(line);
                proof {
                    assert(texts(lines@) =~= texts(old_lines) + seq![line@]);
                }
                push_child_lines(&mut lines, e.name.as_str(), children);
                proof {
                    assert(texts(lines@) =~= texts(old_lines) + entry_lines(*e));
                }
            },
            Kind::UnreadableDir => {
                return Err(order[k]);
            },
        }
        k += 1;
    }
    proof {
        assert(ints.take(ints.len() as int) =~= ints);
        assert forall|i: int| 0 <= i < entries@.len() implies #[trigger] entries@[i].kind
            !is UnreadableDir by {
            assert(ints.contains(i));
            let q = choose|q: int| 0 <= q < ints.len() && ints[q] == i;
            assert(entries@[ints[q]].kind !is UnreadableDir);
        }
    }
    Ok(join(&lines))
}

/// Replaces what stands between the markers of a template by the file list.
pub fn fill_template(template: &str, list: &str) -> (r: Result<String, TemplateError>)
    ensures
        match r {
            Ok(text) => filled(template@, list@) == Ok::<Seq<char>, TemplateError>(text@),
            Err(e) => filled(template@, list@) == Err::<Seq<char>, TemplateError>(e),
        },
{
    let chars = chars_of(template);
    let chars = chars.as_slice();
    let start_marker = chars_of(START_MARKER);
    let end_marker = chars_of(END_MARKER);
    proof {
        lemma_find(chars@, START_MARKER@);
    }
    let inner: usize = match find_text(chars, start_marker.as_slice()) {
        None => {
            return Err(TemplateError::MissingStart);
        },
        Some(start) => start + start_marker.len(),
    };
    let after = slice_subrange(chars, inner, chars.len());
    proof {
        assert(after@ == template@.skip(inner as int));
        lemma_find(after@, END_MARKER@);
    }
    match find_text(after, end_marker.as_slice()) {
        None => Err(TemplateError::MissingEnd),
        Some(len) => {
            let mut out = String::new();
            push_chars(&mut out, slice_subrange(chars, 0, inner));
            out.append("\n\n");
            out.append(list);
            out.append("\n\n");
            push_chars(&mut out, slice_subrange(after, len, after.len()));
            proof {
                assert(chars@.subrange(0, inner as int) == template@.take(inner as int));
                assert(after@.subrange(len as int, after@.len() as int) == template@.skip(
                    inner + len,
                ));
                assert(out@ =~= template@.take(inner as int) + "\n\n"@ + list@ + "\n\n"@
                    + template@.skip(inner + len));
            }
            Ok(out)
        },
    }
}

/// The markdown document for the file list. When a template is provided, only
/// the content between the `AUTO_FILE_LIST_START/END` markers is replaced.
pub fn markdown_document(template: Option<&str>, list: &str) -> (r: Result<String, TemplateError>)
    ensures
        ({
            let t = match template {
                Some(t) => Some(t@),
                None => None,
            };
            match r {
                Ok(text) => document(t, list@) == Ok::<Seq<char>, TemplateError>(text@),
                Err(e) => document(t, list@) == Err::<Seq<char>, TemplateError>(e),
            }
        }),
{
    match template {
        Some(t) => fill_template(t, list),
        None => {
            let mut out = "# Icons\n\n".to_owned();
            out.append(START_MARKER);
            out.append("\n\n");
            out.append(list);
            out.append("\n\n");
            out.append(END_MARKER);
            out.append("\n");
            Ok(out)
        },
    }
}

impl TemplateError {
    /// What is wrong with the template at `path`.
    pub open spec fn message_spec(self, path: Seq<char>) -> Seq<char> {
        match self {
            TemplateError::MissingStart => "Missing AUTO_FILE_LIST_START marker in "@ + path,
            TemplateError::MissingEnd => "Missing AUTO_FILE_LIST_END marker in "@ + path,
        }
    }

    /// What is wrong with the template at `path`.
    pub fn message(&self, path: &str) -> (r: String)
        ensures
            r@ == self.message_spec(path@),
    {
        let mut r = match self {
            TemplateError::MissingStart => "Missing AUTO_FILE_LIST_START marker in ".to_owned(),
            TemplateError::MissingEnd => "Missing AUTO_FILE_LIST_END marker in ".to_owned(),
        };
        r.append(path);
        r
    }
}

/// The line of a file, written out.
pub open spec fn written_file(
    bullet: Seq<char>,
    name: Seq<char>,
    path: Seq<char>,
    size: u64,
) -> Seq<char> {
    let link = bullet + "["@ + name + "](./"@ + path + ") *("@ + size_text(size as nat) + ")*"@;
    if description(name).len() > 0 {
        link + " - **"@ + description(name) + "**"@
    } else {
        link
    }
}

/// The line of something inside the directory `dir`, written out.
pub open spec fn written_child(dir: Seq<char>, c: Child) -> Seq<char> {
    if c.is_dir {
        "  - [**"@ + c.name@ + "/**](./"@ + dir + "/"@ + c.name@ + "/)"@
    } else {
        written_file("  - "@, c.name@, dir + "/"@ + c.name@, c.size)
    }
}

/// The raw names of what a directory holds.
pub open spec fn names_of(children: Seq<Child>) -> Seq<Seq<u8>> {
    children.map_values(|c: Child| c.raw_name@)
}

/// `block` are the lines of an entry: the line of a file, or the heading of a
/// directory and directly behind it one line for each of its children, by name.
pub open spec fn is_block(e: Entry, block: Seq<Seq<char>>) -> bool {
    match e.kind {
        Kind::File(size) => block.len() == 1 && block[0] == written_file(
            "- "@,
            e.name@,
            e.name@,
            size,
        ),
        Kind::Dir(children) => {
            &&& block.len() == 1 + children@.len()
            &&& block[0] == "- **"@ + e.name@ + "/**"@
            &&& exists|order: Seq<int>|
                {
                    &&& #[trigger] is_name_order(names_of(children@), order)
                    &&& forall|k: int|
                        0 <= k < children@.len() ==> #[trigger] block[1 + k] == written_child(
                            e.name@,
                            children@[order[k]],
                        )
                }
        },
        Kind::UnreadableDir => false,
    }
}

/// The block of an entry stands from line `from` up to line `to`.
pub open spec fn block_at(e: Entry, lines: Seq<Seq<char>>, from: int, to: int) -> bool {
    &&& 0 <= from <= to <= lines.len()
    &&& is_block(e, lines.subrange(from, to))
}

/// `order` lists the numbers of the entries: each of them once, directories in
/// front of files, and within either group by name.
pub open spec fn is_list_order(entries: Seq<Entry>, order: Seq<int>) -> bool {
    &&& order.len() == entries.len()
    &&& forall|i: int| 0 <= i < entries.len() <==> #[trigger] order.contains(i)
    &&& order.no_duplicates()
    &&& forall|p: int, q: int|
        0 <= p < q < order.len() ==> {
            let (i, j) = (#[trigger] order[p], #[trigger] order[q]);
            let (a, b) = (entries[i], entries[j]);
            ||| a.kind !is File && b.kind is File
            ||| {
                &&& a.kind is File <==> b.kind is File
                &&& smaller(a.raw_name@, b.raw_name@) || (a.raw_name@ == b.raw_name@ && i < j)
            }
        }
}

/// `lines` are the lines of all entries in their order, one block behind another:
/// the block of entry number `p` of the order stands from line `starts[p]` up to
/// line `starts[p + 1]`.
pub open spec fn are_blocks(
    entries: Seq<Entry>,
    order: Seq<int>,
    lines: Seq<Seq<char>>,
    starts: Seq<int>,
) -> bool {
    &&& starts.len() == order.len() + 1
    &&& starts[0] == 0
    &&& starts[order.len() as int] == lines.len()
    &&& forall|p: int|
        0 <= p < order.len() ==> block_at(
            entries[#[trigger] order[p]],
            lines,
            starts[p],
            starts[p + 1],
        )
}

/// `text` are the lines with a line break between each two: with one more behind
/// the last line, it is every line with a line break behind it.
pub open spec fn is_joined(text: Seq<char>, lines: Seq<Seq<char>>) -> bool {
    if lines.len() == 0 {
        text.len() == 0
    } else {
        text.push('\n') == lines.map_values(|line: Seq<char>| line.push('\n')).flatten()
    }
}

/// Joined lines are all the lines, with a line break behind each but the last.
proof fn lemma_joined(lines: Seq<Seq<char>>)
    ensures
        is_joined(join_lines(lines), lines),
    decreases lines.len(),
{
    reveal_strlit("\n");
    let f = |line: Seq<char>| line.push('\n');
    let all = lines.map_values(f);
    if lines.len() > 0 {
        all.lemma_flatten_and_flatten_alt_are_equivalent();
        assert(all.drop_last() =~= lines.drop_last().map_values(f));
        assert(all.last() == lines.last().push('\n'));
        lemma_joined(lines.drop_last());
        all.drop_last().lemma_flatten_and_flatten_alt_are_equivalent();
        if lines.len() == 1 {
            assert(all.drop_last().flatten_alt() =~= Seq::<char>::empty());
            assert(all.flatten_alt() =~= lines[0].push('\n'));
        } else {
            let front = join_lines(lines.drop_last());
            assert(all.flatten_alt() =~= front.push('\n') + lines.last().push('\n'));
            assert(join_lines(lines).push('\n') =~= front.push('\n') + lines.last().push('\n'));
        }
    }
}

/// A line of a file is written as it should be.
proof fn lemma_written_file(bullet: Seq<char>, name: Seq<char>, path: Seq<char>, size: u64)
    ensures
        file_line(bullet, name, path, size as nat) == written_file(bullet, name, path, size),
{
    assert(file_line(bullet, name, path, size as nat) =~= written_file(bullet, name, path, size));
}

/// The lines of an entry that could be read are its block.
proof fn lemma_block(e: Entry)
    requires
        e.kind !is UnreadableDir,
    ensures
        is_block(e, entry_lines(e)),
{
    match e.kind {
        Kind::File(size) => {
            lemma_written_file("- "@, e.name@, e.name@, size);
        },
        Kind::Dir(children) => {
            let names = names_of(children@);
            assert(names =~= child_keys(children@));
            let order = listing_order(names);
            listing_order_is_by_name(names);
            let block = entry_lines(e);
            assert(block[0] == "- **"@ + e.name@ + "/**"@);
            assert forall|k: int| 0 <= k < children@.len() implies #[trigger] block[1 + k]
                == written_child(e.name@, children@[order[k]]) by {
                let c = children@[order[k]];
                assert(block[1 + k] == child_lines(e.name@, children@)[k]);
                if !c.is_dir {
                    lemma_written_file("  - "@, c.name@, e.name@ + "/"@ + c.name@, c.size);
                }
            }
            assert(is_name_order(names, order));
        },
        Kind::UnreadableDir => {},
    }
}

/// The lines of entries that could be read are their blocks.
proof fn lemma_blocks(entries: Seq<Entry>, order: Seq<int>) -> (starts: Seq<int>)
    requires
        forall|p: int|
            0 <= p < order.len() ==> entries[#[trigger] order[p]].kind !is UnreadableDir,
    ensures
        are_blocks(entries, order, list_lines(entries, order), starts),
    decreases order.len(),
{
    let lines = list_lines(entries, order);
    if order.len() == 0 {
        seq![0int]
    } else {
        let n = order.len() - 1;
        let front = order.drop_last();
        assert forall|p: int| 0 <= p < front.len() implies entries[#[trigger] front[p]].kind
            !is UnreadableDir by {
            assert(front[p] == order[p]);
        }
        let before = lemma_blocks(entries, front);
        let first = list_lines(entries, front);
        let block = entry_lines(entries[order.last()]);
        let starts = before.push(lines.len() as int);
        assert(order[n] == order.last());
        lemma_block(entries[order.last()]);
        assert forall|p: int| 0 <= p < order.len() implies block_at(
            entries[#[trigger] order[p]],
            lines,
            starts[p],
            starts[p + 1],
        ) by {
            if p < n {
                assert(front[p] == order[p]);
                assert(block_at(entries[front[p]], first, before[p], before[p + 1]));
                assert(lines.subrange(starts[p], starts[p + 1]) =~= first.subrange(
                    before[p],
                    before[p + 1],
                ));
            } else {
                assert(lines.subrange(starts[p], starts[p + 1]) =~= block);
            }
        }
        starts
    }
}

/// The order of the list puts directories first and goes by name in each group.
proof fn lemma_list_order(entries: Seq<Entry>)
    ensures
        is_list_order(entries, listing_order(entry_keys(entries))),
{
    let order = listing_order(entry_keys(entries));
    listing_order_is_sorted(entry_keys(entries));
    assert forall|p: int, q: int| 0 <= p < q < order.len() implies {
        let (i, j) = (#[trigger] order[p], #[trigger] order[q]);
        let (a, b) = (entries[i], entries[j]);
        ||| a.kind !is File && b.kind is File
        ||| {
            &&& a.kind is File <==> b.kind is File
            &&& smaller(a.raw_name@, b.raw_name@) || (a.raw_name@ == b.raw_name@ && i < j)
        }
    } by {
        list_is_in_groups(entries, p, q);
        before_is_smaller(entries[order[p]].raw_name@, entries[order[q]].raw_name@);
    }
}

/// The list holds everything there is, wherever it stands in the order: a line
/// for each file, and for each directory its heading and directly behind it one
/// line for each of its children. A list is made only where every directory
/// could be read.
pub proof fn list_holds_every_entry(entries: &Vec<Entry>, list: String)
    requires
        call_ensures(build_markdown_list, (entries,), Ok(list)),
    ensures
        forall|i: int| 0 <= i < entries@.len() ==> #[trigger] entries@[i].kind !is UnreadableDir,
        exists|order: Seq<int>, lines: Seq<Seq<char>>, starts: Seq<int>|
            {
                &&& is_list_order(entries@, order)
                &&& #[trigger] are_blocks(entries@, order, lines, starts)
                &&& is_joined(list@, lines)
            },
{
    let order = listing_order(entry_keys(entries@));
    lemma_list_order(entries@);
    assert forall|p: int| 0 <= p < order.len() implies entries@[#[trigger] order[p]].kind
        !is UnreadableDir by {
        assert(order.contains(order[p]));
    }
    let starts = lemma_blocks(entries@, order);
    let lines = list_lines(entries@, order);
    lemma_joined(lines);
    assert(are_blocks(entries@, order, lines, starts));
}

/// How many lines the blocks have together: one for each entry and one for each
/// child.
pub proof fn list_has_a_line_for_everything(
    entries: Seq<Entry>,
    order: Seq<int>,
    lines: Seq<Seq<char>>,
    starts: Seq<int>,
)
    requires
        are_blocks(entries, order, lines, starts),
    ensures
        lines.len() == order.len() + order.fold_left(
            0int,
            |n: int, i: int|
                n + match entries[i].kind {
                    Kind::Dir(children) => children@.len() as int,
                    _ => 0int,
                },
        ),
{
    lemma_block_starts(entries, order, lines, starts, order.len() as int);
    assert(order.take(order.len() as int) =~= order);
}

/// Where the block of an entry starts.
proof fn lemma_block_starts(
    entries: Seq<Entry>,
    order: Seq<int>,
    lines: Seq<Seq<char>>,
    starts: Seq<int>,
    p: int,
)
    requires
        are_blocks(entries, order, lines, starts),
        0 <= p <= order.len(),
    ensures
        starts[p] == p + order.take(p).fold_left(
            0int,
            |n: int, i: int|
                n + match entries[i].kind {
                    Kind::Dir(children) => children@.len() as int,
                    _ => 0int,
                },
        ),
    decreases p,
{
    reveal(Seq::fold_left);
    if p > 0 {
        lemma_block_starts(entries, order, lines, starts, p - 1);
        assert(order.take(p).drop_last() =~= order.take(p - 1));
        assert(order.take(p).last() == order[p - 1]);
        assert(block_at(entries[order[p - 1]], lines, starts[p - 1], starts[p]));
    }
}

/// Where directories could not be read, the first of them by name is reported.
pub proof fn first_unreadable_directory_is_reported(entries: &Vec<Entry>, i: usize)
    requires
        call_ensures(build_markdown_list, (entries,), Err(i)),
    ensures
        i < entries@.len(),
        entries@[i as int].kind is UnreadableDir,
        forall|j: int|
            {
                &&& 0 <= j < entries@.len()
                &&& j != i
                &&& #[trigger] entries@[j].kind is UnreadableDir
            } ==> {
                ||| smaller(entries@[i as int].raw_name@, entries@[j].raw_name@)
                ||| entries@[i as int].raw_name@ == entries@[j].raw_name@ && i < j
            },
{
    let order = listing_order(entry_keys(entries@));
    lemma_list_order(entries@);
    let p = choose|p: int|
        {
            &&& 0 <= p < order.len()
            &&& #[trigger] order[p] == i
            &&& entries@[order[p]].kind is UnreadableDir
            &&& forall|q: int| 0 <= q < p ==> entries@[#[trigger] order[q]].kind !is UnreadableDir
        };
    assert(order.contains(order[p]));
    assert forall|j: int|
        {
            &&& 0 <= j < entries@.len()
            &&& j != i
            &&& #[trigger] entries@[j].kind is UnreadableDir
        } implies {
        ||| smaller(entries@[i as int].raw_name@, entries@[j].raw_name@)
        ||| entries@[i as int].raw_name@ == entries@[j].raw_name@ && i < j
    } by {
        assert(order.contains(j));
        let q = choose|q: int| 0 <= q < order.len() && order[q] == j;
        assert(order[q] == j);
        assert(p < q);
        assert(order[p] == i);
    }
}

/// The start marker stands in a template for the first time at index `at`, and
/// from there on the end marker for the first time at index `end`.
pub open spec fn markers_at(template: Seq<char>, at: int, end: int) -> bool {
    &&& start_marker_at(template, at)
    &&& at + 29 <= end <= template.len() - 27
    &&& template.subrange(end, end + 27) == "<!-- AUTO_FILE_LIST_END -->"@
    &&& forall|j: int|
        at + 29 <= j < end ==> #[trigger] template.subrange(j, j + 27)
            != "<!-- AUTO_FILE_LIST_END -->"@
}

/// The start marker stands in a template for the first time at index `at`.
pub open spec fn start_marker_at(template: Seq<char>, at: int) -> bool {
    &&& 0 <= at <= template.len() - 29
    &&& template.subrange(at, at + 29) == "<!-- AUTO_FILE_LIST_START -->"@
    &&& forall|j: int|
        0 <= j < at ==> #[trigger] template.subrange(j, j + 29) != "<!-- AUTO_FILE_LIST_START -->"@
}

/// The markers of a template are where they are found.
proof fn lemma_markers(template: Seq<char>)
    ensures
        find(template, START_MARKER@) is None ==> forall|at: int|
            !#[trigger] start_marker_at(template, at),
        find(template, START_MARKER@) matches Some(at) ==> {
            &&& start_marker_at(template, at)
            &&& forall|other: int| #[trigger] start_marker_at(template, other) ==> other == at
            &&& match find(template.skip(at + 29), END_MARKER@) {
                Some(len) => markers_at(template, at, at + 29 + len),
                None => forall|other: int, end: int| !#[trigger] markers_at(template, other, end),
            }
        },
        START_MARKER@.len() == 29,
        END_MARKER@.len() == 27,
{
    reveal_strlit("<!-- AUTO_FILE_LIST_START -->");
    reveal_strlit("<!-- AUTO_FILE_LIST_END -->");
    let start = START_MARKER@;
    let stop = END_MARKER@;
    lemma_find(template, start);
    assert forall|at: int| #[trigger] start_marker_at(template, at) implies is_first(
        template,
        start,
        at,
    ) by {
        assert forall|j: int| 0 <= j < at implies !occurs_at(template, start, j) by {
            assert(template.subrange(j, j + 29) != start);
        }
    }
    if let Some(at) = find(template, start) {
        assert forall|j: int| 0 <= j < at implies #[trigger] template.subrange(j, j + 29)
            != start by {
            assert(!occurs_at(template, start, j));
        }
        assert(start_marker_at(template, at));
        let after = template.skip(at + 29);
        lemma_find(after, stop);
        assert forall|j: int| 0 <= j <= after.len() - 27 implies #[trigger] after.subrange(
            j,
            j + 27,
        ) == template.subrange(at + 29 + j, at + 29 + j + 27) by {
            assert(after.subrange(j, j + 27) =~= template.subrange(
                at + 29 + j,
                at + 29 + j + 27,
            ));
        }
        match find(after, stop) {
            Some(len) => {
                let end = at + 29 + len;
                assert(after.subrange(len, len + 27) == template.subrange(end, end + 27));
                assert forall|j: int| at + 29 <= j < end implies #[trigger] template.subrange(
                    j,
                    j + 27,
                ) != stop by {
                    assert(!occurs_at(after, stop, j - at - 29));
                    assert(after.subrange(j - at - 29, j - at - 29 + 27) == template.subrange(
                        j,
                        j + 27,
                    ));
                }
            },
            None => {
                assert forall|other: int, end: int| !#[trigger]
                    markers_at(template, other, end) by {
                    if markers_at(template, other, end) {
                        assert(other == at);
                        let j = end - at - 29;
                        assert(after.subrange(j, j + 27) == template.subrange(end, end + 27));
                        assert(occurs_at(after, stop, j));
                    }
                }
            },
        }
    }
}

/// Filling a template replaces what stands between its markers by the list with
/// an empty line on either side, and keeps everything else. A template without
/// its markers is refused, with the one that is missing.
pub proof fn filling_keeps_all_but_the_list(
    template: &str,
    list: &str,
    r: Result<String, TemplateError>,
)
    requires
        call_ensures(fill_template, (template, list), r) || call_ensures(
            markdown_document,
            (Some(template), list),
            r,
        ),
    ensures
        match r {
            Ok(text) => exists|at: int, end: int| #[trigger]
                markers_at(template@, at, end) && text@ == template@.take(at + 29) + seq![
                    '\n',
                    '\n',
                ] + list@ + seq!['\n', '\n'] + template@.skip(end),
            Err(TemplateError::MissingStart) => forall|at: int|
                !#[trigger] start_marker_at(template@, at),
            Err(TemplateError::MissingEnd) => {
                &&& exists|at: int| #[trigger] start_marker_at(template@, at)
                &&& forall|at: int, end: int| !#[trigger] markers_at(template@, at, end)
            },
        },
{
    reveal_strlit("\n\n");
    assert("\n\n"@ =~= seq!['\n', '\n']);
    lemma_markers(template@);
    if let Some(at) = find(template@, START_MARKER@) {
        if let Some(len) = find(template@.skip(at + 29), END_MARKER@) {
            assert(markers_at(template@, at, at + 29 + len));
        }
    }
}

/// Without a template the list stands under a title, between the markers, with
/// an empty line on either side.
pub proof fn fresh_documents_hold_the_list(list: &str, r: Result<String, TemplateError>)
    requires
        call_ensures(markdown_document, (None, list), r),
    ensures
        r matches Ok(text) && text@ == "# Icons\n\n<!-- AUTO_FILE_LIST_START -->\n\n"@ + list@
            + "\n\n<!-- AUTO_FILE_LIST_END -->\n"@,
{
    reveal_strlit("# Icons\n\n");
    reveal_strlit("\n\n");
    reveal_strlit("\n");
    reveal_strlit("<!-- AUTO_FILE_LIST_START -->");
    reveal_strlit("<!-- AUTO_FILE_LIST_END -->");
    reveal_strlit("# Icons\n\n<!-- AUTO_FILE_LIST_START -->\n\n");
    reveal_strlit("\n\n<!-- AUTO_FILE_LIST_END -->\n");
    assert("# Icons\n\n<!-- AUTO_FILE_LIST_START -->\n\n"@ =~= "# Icons\n\n"@ + START_MARKER@
        + "\n\n"@);
    assert("\n\n<!-- AUTO_FILE_LIST_END -->\n"@ =~= "\n\n"@ + END_MARKER@ + "\n"@);
    assert(fresh_document(list@) =~= "# Icons\n\n<!-- AUTO_FILE_LIST_START -->\n\n"@ + list@
        + "\n\n<!-- AUTO_FILE_LIST_END -->\n"@);
}

/// A message names the missing marker and ends with the path of the template.
pub proof fn messages_name_the_marker_and_the_path(e: &TemplateError, path: &str, r: String)
    requires
        call_ensures(TemplateError::message, (e, path), r),
    ensures
        r@ == match *e {
            TemplateError::MissingStart => "Missing AUTO_FILE_LIST_START marker in "@,
            TemplateError::MissingEnd => "Missing AUTO_FILE_LIST_END marker in "@,
        } + path@,
{
}

} // verus!
