use mirror_listing::order::{entry_precedes, order_entries, DirectoryEntry, EntryKind};
use mirror_listing::page::{display_label, entry_row, render_listing, render_page};

fn entry(name: &str, kind: EntryKind, size_bytes: u64, modified_secs: i64) -> DirectoryEntry {
    DirectoryEntry { name: name.to_string(), kind, size_bytes, modified_secs }
}

fn names(entries: &[DirectoryEntry]) -> Vec<String> {
    entries.iter().map(|e| e.name.clone()).collect()
}

#[test]
fn directories_precede_files() {
    let entries = vec![
        entry("zeta", EntryKind::Directory, 0, 0),
        entry("alpha", EntryKind::RegularFile, 1, 0),
        entry("beta", EntryKind::Directory, 0, 0),
    ];
    let ordered = order_entries(entries);
    assert_eq!(names(&ordered), vec!["beta", "zeta", "alpha"]);
}

#[test]
fn names_sort_by_bytes() {
    let entries = vec![
        entry("b", EntryKind::RegularFile, 1, 0),
        entry("B", EntryKind::RegularFile, 1, 0),
        entry("ab", EntryKind::RegularFile, 1, 0),
        entry("a", EntryKind::Symlink, 1, 0),
        entry("é", EntryKind::RegularFile, 1, 0),
    ];
    let ordered = order_entries(entries);
    assert_eq!(names(&ordered), vec!["B", "a", "ab", "b", "é"]);
}

#[test]
fn empty_directory_orders_to_nothing() {
    assert!(order_entries(Vec::new()).is_empty());
}

#[test]
fn precedence_of_two_entries() {
    let d = entry("z", EntryKind::Directory, 0, 0);
    let f = entry("a", EntryKind::RegularFile, 0, 0);
    assert!(entry_precedes(&d, &f));
    assert!(!entry_precedes(&f, &d));
    assert!(!entry_precedes(&d, &d));
}

#[test]
fn labels_by_kind() {
    assert_eq!(display_label(&entry("img", EntryKind::Directory, 0, 0)), "img/");
    assert_eq!(display_label(&entry("link", EntryKind::Symlink, 0, 0)), "@link");
    assert_eq!(display_label(&entry("a.txt", EntryKind::RegularFile, 0, 0)), "a.txt");
}

#[test]
fn symlink_to_directory_is_shown_as_link() {
    let entries = vec![
        entry("link", EntryKind::Symlink, 4, 0),
        entry("zdir", EntryKind::Directory, 0, 0),
        entry("afile", EntryKind::RegularFile, 1, 0),
    ];
    let ordered = order_entries(entries);
    assert_eq!(names(&ordered), vec!["zdir", "afile", "link"]);
    let html = render_listing("/", vec![
        entry("link", EntryKind::Symlink, 4, 0),
        entry("zdir", EntryKind::Directory, 0, 0),
    ])
    .unwrap();
    assert!(html.contains("<a href=\"link\">@link</a>"));
    assert!(!html.contains("link/"));
    assert!(html.find("zdir/").unwrap() < html.find("@link").unwrap());
}

#[test]
fn row_text_is_exact() {
    let row = entry_row(&entry("img", EntryKind::Directory, 2048, 0), "2023-01-01 00:00:00 UTC");
    assert_eq!(
        row,
        "<tr>\n                <td><a href=\"img\">img/</a></td>\n                <td>2 KB</td>\n                <td>2023-01-01 00:00:00 UTC</td>\n            </tr>"
    );
}

#[test]
fn times_are_written_in_utc() {
    let html = render_page("/", &vec![
        entry("a", EntryKind::RegularFile, 1, 0),
        entry("b", EntryKind::RegularFile, 1, -1),
        entry("c", EntryKind::RegularFile, 1, 1_431_648_000),
    ])
    .unwrap();
    assert!(html.contains("<td>1970-01-01 00:00:00 UTC</td>"));
    assert!(html.contains("<td>1969-12-31 23:59:59 UTC</td>"));
    assert!(html.contains("<td>2015-05-15 00:00:00 UTC</td>"));
}

#[test]
fn time_out_of_range_gives_none() {
    assert!(render_page("/", &vec![entry("a", EntryKind::RegularFile, 1, i64::MAX)]).is_none());
    assert!(render_listing("/", vec![entry("a", EntryKind::RegularFile, 1, i64::MIN)]).is_none());
}

#[test]
fn empty_listing_page() {
    let html = render_listing("/empty/", Vec::new()).unwrap();
    assert!(html.starts_with("<!DOCTYPE html>"));
    assert!(html.contains("<title>Directory Listing for /empty/ - mirrors.doleckijakub.pl</title>"));
    assert!(html.contains("<h1>Directory Listing for /empty/</h1>"));
    assert!(html.ends_with("<tbody></tbody>\n    </table>\n</body>\n</html>"));
}

#[test]
fn one_gibibyte_directory() {
    let html = render_listing("/", vec![entry("big", EntryKind::Directory, 1_073_741_824, 0)]).unwrap();
    assert!(html.contains("<td>1 GB</td>"));
}

#[test]
fn rendering_twice_is_identical() {
    let first = render_listing("/pub/", vec![
        entry("b", EntryKind::RegularFile, 10, 100),
        entry("a", EntryKind::Directory, 20, 200),
        entry("c", EntryKind::Symlink, 30, 300),
    ])
    .unwrap();
    let second = render_listing("/pub/", vec![
        entry("c", EntryKind::Symlink, 30, 300),
        entry("b", EntryKind::RegularFile, 10, 100),
        entry("a", EntryKind::Directory, 20, 200),
    ])
    .unwrap();
    assert_eq!(first, second);
}

#[test]
fn docs_scenario() {
    let html = render_listing("/docs", vec![
        entry("notes.txt", EntryKind::RegularFile, 500, 1_672_531_200),
        entry("img", EntryKind::Directory, 2048, 1_672_531_200),
    ])
    .unwrap();
    let img = html.find("<a href=\"img\">img/</a>").unwrap();
    let notes = html.find("<a href=\"notes.txt\">notes.txt</a>").unwrap();
    assert!(img < notes);
    assert!(html[img..notes].contains("<td>2 KB</td>"));
    assert!(html[notes..].contains("<td>500 B</td>"));
    assert!(html[notes..].contains("<td>2023-01-01 00:00:00 UTC</td>"));
    assert!(html.contains("<title>Directory Listing for /docs - mirrors.doleckijakub.pl</title>"));
    assert!(html.contains("<h1>Directory Listing for /docs</h1>"));
}
