//! The HTML page of a directory listing.

use crate::order::{
    is_dir, listing_ordered, lemma_directories_first, lemma_order_unique, names_unique,
    order_entries, DirectoryEntry, EntryKind,
};
use crate::size::{human_readable_size, size_text};
use crate::timestamp::{utc_text_of, utc_timestamp_text, TIMESTAMP_LIMIT};
use vstd::multiset::{group_multiset_axioms, Multiset};
use vstd::prelude::*;
use vstd::seq_lib::group_to_multiset_ensures;

verus! {

pub const PAGE_TITLE_OPEN: &'static str = "<!DOCTYPE html>
<html lang=\"en\">
<head>
    <meta charset=\"UTF-8\">
    <title>Directory Listing for ";

pub const PAGE_HEADING_OPEN: &'static str = " - mirrors.doleckijakub.pl</title>
    <style>
        body {
            font-family: sans-serif;
            color: #e8e8e8;
            padding: 2em;
            background-color: #1f1f1f;
        }
        
        a {
            text-decoration: none;
            color: #7acc00;
        }

        a:hover {
            text-decoration: underline;
        }

        table {
            width: 100%;
            border-collapse: collapse;
            table-layout: auto;
            margin-top: 1em;
        }

        th, td {
            padding: 10px;
            border-bottom: 1px solid #555;
            white-space: nowrap;
        }

        td:first-child {
            text-align: left;
            overflow: hidden;
            text-overflow: ellipsis;
            white-space: nowrap;
            min-width: 100%;
            display: block;
        }

        td:not(first-child) {
            text-align: right;
            width: 1px;
            white-space: nowrap;
        }
    </style>
</head>
<body>
    <h1>Directory Listing for ";

pub const PAGE_TABLE_OPEN: &'static str = "</h1>
    <table>
        <thead>
            <tr>
                <th>Name</th>
                <th>Size</th>
                <th>Last modified</th>
            </tr>
        </thead>
        <tbody>";

pub const ROW_OPEN: &'static str = "<tr>
                <td><a href=\"";

pub const ROW_LABEL: &'static str = "\">";

pub const ROW_SIZE: &'static str = "</a></td>
                <td>";

pub const ROW_MODIFIED: &'static str = "</td>
                <td>";

pub const ROW_CLOSE: &'static str = "</td>
            </tr>";

pub const PAGE_CLOSE: &'static str = "</tbody>
    </table>
</body>
</html>";

/// What a listing shows for an entry: directories get a trailing `/`,
/// symbolic links a leading `@`, files their bare name.
pub open spec fn label_text(name: Seq<char>, kind: EntryKind) -> Seq<char> {
    match kind {
        EntryKind::Directory => name + seq!['/'],
        EntryKind::Symlink => seq!['@'] + name,
        EntryKind::RegularFile => name,
    }
}

/// One table row: a link to the raw name labelled for display, the size, and
/// the modification time given as text.
pub open spec fn row_text(e: DirectoryEntry, modified: Seq<char>) -> Seq<char> {
    ROW_OPEN@ + e.name@ + ROW_LABEL@ + label_text(e.name@, e.kind) + ROW_SIZE@ + size_text(
        e.size_bytes as nat,
    ) + ROW_MODIFIED@ + modified + ROW_CLOSE@
}

/// The rows of `s`, in that order.
pub open spec fn rows_text(s: Seq<DirectoryEntry>) -> Seq<char>
    decreases s.len(),
{
    if s.len() == 0 {
        Seq::empty()
    } else {
        rows_text(s.drop_last()) + row_text(s.last(), utc_text_of(s.last().modified_secs as int))
    }
}

/// The whole page for `path` whose table shows `s` in that order.
pub open spec fn page_text(path: Seq<char>, s: Seq<DirectoryEntry>) -> Seq<char> {
    PAGE_TITLE_OPEN@ + path + PAGE_HEADING_OPEN@ + path + PAGE_TABLE_OPEN@ + rows_text(s)
        + PAGE_CLOSE@
}

/// Every modification time lies within `TIMESTAMP_LIMIT` of the epoch.
pub open spec fn timestamps_in_range(s: Seq<DirectoryEntry>) -> bool {
    forall|i: int|
        0 <= i < s.len() ==> -TIMESTAMP_LIMIT <= #[trigger] s[i].modified_secs <= TIMESTAMP_LIMIT
}

/// `html` is the page for `path` that shows the entries of `entries` in
/// listing order.
pub open spec fn is_listing(path: Seq<char>, entries: Multiset<DirectoryEntry>, html: Seq<char>) -> bool {
    exists|s: Seq<DirectoryEntry>|
        listing_ordered(s) && s.to_multiset() == entries && html == page_text(path, s)
}

/// The label under which an entry is shown.
pub fn display_label(entry: &DirectoryEntry) -> (r: String)
    ensures
        r@ == label_text(entry.name@, entry.kind),
{
    match entry.kind {
        EntryKind::Directory => {
            let mut s = entry.name.clone();
            proof {
                reveal_strlit("/");
            }
            s.append("/");
            s
        },
        EntryKind::Symlink => {
            proof {
                reveal_strlit("@");
            }
            let mut s = String::from_str("@");
            s.append(entry.name.as_str());
            s
        },
        EntryKind::RegularFile => entry.name.clone(),
    }
}

/// The table row of `entry`, with `modified` as its time column.
pub fn entry_row(entry: &DirectoryEntry, modified: &str) -> (r: String)
    ensures
        r@ == row_text(*entry, modified@),
{
    let mut s = String::from_str(ROW_OPEN);
    s.append(entry.name.as_str());
    s.append(ROW_LABEL);
    let label = display_label(entry);
    s.append(label.as_str());
    s.append(ROW_SIZE);
    let size = human_readable_size(entry.size_bytes);
    s.append(size.as_str());
    s.append(ROW_MODIFIED);
    s.append(modified);
    s.append(ROW_CLOSE);
    s
}

/// The page for `request_path` showing `entries` in the order given. `None`
/// only where the time of an entry cannot be written.
pub fn render_page(request_path: &str, entries: &Vec<DirectoryEntry>) -> (r: Option<String>)
    ensures
        timestamps_in_range(entries@) ==> r is Some,
        r matches Some(h) ==> h@ == page_text(request_path@, entries@),
{
    let mut s = String::from_str(PAGE_TITLE_OPEN);
    s.append(request_path);
    s.append(PAGE_HEADING_OPEN);
    s.append(request_path);
    s.append(PAGE_TABLE_OPEN);
    let ghost head = s@;
    let mut i: usize = 0;
    assert(entries@.subrange(0, 0) =~= Seq::<DirectoryEntry>::empty());
    while i < entries.len()
        invariant
            i <= entries@.len(),
            head == PAGE_TITLE_OPEN@ + request_path@ + PAGE_HEADING_OPEN@ + request_path@
                + PAGE_TABLE_OPEN@,
            s@ == head + rows_text(entries@.subrange(0, i as int)),
            timestamps_in_range(entries@) ==> forall|j: int|
                0 <= j < entries@.len() ==> -TIMESTAMP_LIMIT <= #[trigger] entries@[j].modified_secs
                    <= TIMESTAMP_LIMIT,
        decreases entries.len() - i,
    {
        let entry = &entries[i];
        let modified = match utc_timestamp_text(entry.modified_secs) {
            Some(t) => t,
            None => {
                return None;
            },
        };
        let row = entry_row(entry, modified.as_str());
        s.append(row.as_str());
        proof {
            let next = entries@.subrange(0, i + 1);
            assert(next.drop_last() =~= entries@.subrange(0, i as int));
            assert(s@ =~= head + rows_text(next));
        }
        i = i + 1;
    }
    assert(entries@.subrange(0, i as int) =~= entries@);
    s.append(PAGE_CLOSE);
    Some(s)
}

/// The listing page of `request_path` for the entries of a directory, in any
/// order: directories first, then by name. `None` only where the time of an
/// entry cannot be written.
pub fn render_listing(request_path: &str, entries: Vec<DirectoryEntry>) -> (r: Option<String>)
    ensures
        timestamps_in_range(entries@) ==> r is Some,
        r matches Some(h) ==> is_listing(request_path@, entries@.to_multiset(), h@),
{
    let ghost given = entries@;
    let ordered = order_entries(entries);
    proof {
        broadcast use group_to_multiset_ensures, group_multiset_axioms;

        if timestamps_in_range(given) {
            assert forall|i: int| 0 <= i < ordered@.len() implies -TIMESTAMP_LIMIT
                <= #[trigger] ordered@[i].modified_secs <= TIMESTAMP_LIMIT by {
                ordered@.to_multiset_ensures();
                given.to_multiset_ensures();
                assert(ordered@.contains(ordered@[i]));
                assert(ordered@.to_multiset().count(ordered@[i]) > 0);
                assert(given.to_multiset().count(ordered@[i]) > 0);
                assert(given.contains(ordered@[i]));
                let k = choose|k: int| 0 <= k < given.len() && given[k] == ordered@[i];
                assert(-TIMESTAMP_LIMIT <= given[k].modified_secs <= TIMESTAMP_LIMIT);
            }
        }
    }
    let r = render_page(request_path, &ordered);
    proof {
        if r is Some {
            assert(listing_ordered(ordered@) && ordered@.to_multiset() == given.to_multiset()
                && r->0@ == page_text(request_path@, ordered@));
        }
    }
    r
}

/// Rendering the same unchanged directory twice gives the same page, whatever
/// order its entries were enumerated in, as no two entries share a name.
pub proof fn lemma_listing_deterministic(
    path: Seq<char>,
    entries: Multiset<DirectoryEntry>,
    first: Seq<char>,
    second: Seq<char>,
)
    requires
        names_unique(entries),
        is_listing(path, entries, first),
        is_listing(path, entries, second),
    ensures
        first == second,
{
    let s1 = choose|s: Seq<DirectoryEntry>|
        listing_ordered(s) && s.to_multiset() == entries && first == page_text(path, s);
    let s2 = choose|s: Seq<DirectoryEntry>|
        listing_ordered(s) && s.to_multiset() == entries && second == page_text(path, s);
    lemma_order_unique(s1, s2);
}

/// A symbolic link, also one that points to a directory, is shown with a
/// leading `@` and no trailing `/`, and every directory comes before it.
pub proof fn lemma_symlink_shown_as_link(s: Seq<DirectoryEntry>, i: int)
    requires
        listing_ordered(s),
        0 <= i < s.len(),
        s[i].kind == EntryKind::Symlink,
    ensures
        label_text(s[i].name@, s[i].kind) == seq!['@'] + s[i].name@,
        forall|j: int| 0 <= j < s.len() && is_dir(#[trigger] s[j]) ==> j < i,
{
    assert forall|j: int| 0 <= j < s.len() && is_dir(#[trigger] s[j]) implies j < i by {
        lemma_directories_first(s, j, i);
    }
}

} // verus!
