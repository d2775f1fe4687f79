//! Directory entries and the order in which a listing shows them:
//! directories first, then by the raw bytes of the name.

use vstd::multiset::{group_multiset_axioms, Multiset};
use vstd::prelude::*;
use vstd::seq_lib::{group_to_multiset_ensures, lemma_multiset_commutative};
use vstd::utf8::{encode_utf8, encode_utf8_decode_utf8};

verus! {

/// How an entry presents itself, without following symbolic links.
#[derive(Clone, Copy, Debug, PartialEq, Eq, Structural)]
pub enum EntryKind {
    Directory,
    Symlink,
    RegularFile,
}

/// One immediate child of a listed directory.
pub struct DirectoryEntry {
    /// The entry's own name, as found in its parent directory.
    pub name: String,
    pub kind: EntryKind,
    /// For a directory the total size of everything below it, for any other
    /// entry its own length.
    pub size_bytes: u64,
    /// Last modification, in whole seconds since the Unix epoch (UTC).
    pub modified_secs: i64,
}

/// Strict lexicographic order on byte strings (a proper prefix comes first).
pub open spec fn bytes_before(a: Seq<u8>, b: Seq<u8>) -> bool
    decreases a.len(),
{
    if a.len() == 0 {
        b.len() > 0
    } else if b.len() == 0 {
        false
    } else if a[0] != b[0] {
        a[0] < b[0]
    } else {
        bytes_before(a.drop_first(), b.drop_first())
    }
}

/// Names compare by their UTF-8 bytes.
pub open spec fn name_before(a: Seq<char>, b: Seq<char>) -> bool {
    bytes_before(encode_utf8(a), encode_utf8(b))
}

pub open spec fn is_dir(e: DirectoryEntry) -> bool {
    e.kind == EntryKind::Directory
}

/// `a` may stand before `b` in a listing: a directory before any other entry,
/// and within each group the smaller name first.
pub open spec fn entry_le(a: DirectoryEntry, b: DirectoryEntry) -> bool {
    (is_dir(a) && !is_dir(b)) || (is_dir(a) == is_dir(b) && !name_before(b.name@, a.name@))
}

/// Every entry may stand before every later one.
pub open spec fn listing_ordered(s: Seq<DirectoryEntry>) -> bool {
    forall|i: int, j: int| 0 <= i < j < s.len() ==> entry_le(#[trigger] s[i], #[trigger] s[j])
}

/// No two different entries of `m` carry the same name, as in one directory.
pub open spec fn names_unique(m: Multiset<DirectoryEntry>) -> bool {
    forall|x: DirectoryEntry, y: DirectoryEntry|
        #[trigger] m.count(x) > 0 && #[trigger] m.count(y) > 0 && x.name@ == y.name@ ==> x == y
}

proof fn lemma_bytes_before_asymmetric(a: Seq<u8>, b: Seq<u8>)
    ensures
        !(bytes_before(a, b) && bytes_before(b, a)),
    decreases a.len(),
{
    if a.len() > 0 && b.len() > 0 && a[0] == b[0] {
        lemma_bytes_before_asymmetric(a.drop_first(), b.drop_first());
    }
}

proof fn lemma_bytes_before_transitive(a: Seq<u8>, b: Seq<u8>, c: Seq<u8>)
    requires
        bytes_before(a, b),
        bytes_before(b, c),
    ensures
        bytes_before(a, c),
    decreases a.len(),
{
    if a.len() > 0 && b.len() > 0 && c.len() > 0 && a[0] == b[0] && b[0] == c[0] {
        lemma_bytes_before_transitive(a.drop_first(), b.drop_first(), c.drop_first());
    }
}

proof fn lemma_bytes_before_total(a: Seq<u8>, b: Seq<u8>)
    requires
        a != b,
    ensures
        bytes_before(a, b) || bytes_before(b, a),
    decreases a.len(),
{
    if a.len() > 0 && b.len() > 0 && a[0] == b[0] {
        if a.drop_first() == b.drop_first() {
            assert(a =~= seq![a[0]] + a.drop_first());
            assert(b =~= seq![b[0]] + b.drop_first());
        }
        lemma_bytes_before_total(a.drop_first(), b.drop_first());
    } else if a.len() == 0 && b.len() == 0 {
        assert(a =~= b);
    }
}

/// Distinct names are strictly ordered one way or the other.
proof fn lemma_name_before_total(a: Seq<char>, b: Seq<char>)
    requires
        a != b,
    ensures
        name_before(a, b) || name_before(b, a),
{
    encode_utf8_decode_utf8(a);
    encode_utf8_decode_utf8(b);
    lemma_bytes_before_total(encode_utf8(a), encode_utf8(b));
}

proof fn lemma_entry_le_total(a: DirectoryEntry, b: DirectoryEntry)
    ensures
        entry_le(a, b) || entry_le(b, a),
{
    lemma_bytes_before_asymmetric(encode_utf8(a.name@), encode_utf8(b.name@));
}

proof fn lemma_entry_le_transitive(a: DirectoryEntry, b: DirectoryEntry, c: DirectoryEntry)
    requires
        entry_le(a, b),
        entry_le(b, c),
    ensures
        entry_le(a, c),
{
    let (x, y, z) = (encode_utf8(a.name@), encode_utf8(b.name@), encode_utf8(c.name@));
    if bytes_before(z, x) {
        if x == y {
        } else {
            lemma_name_before_total(a.name@, b.name@);
            if bytes_before(x, y) {
                lemma_bytes_before_transitive(z, x, y);
            }
        }
    }
}

proof fn lemma_insert_to_multiset<A>(s: Seq<A>, p: int, e: A)
    requires
        0 <= p <= s.len(),
    ensures
        s.insert(p, e).to_multiset() =~= s.to_multiset().insert(e),
{
    broadcast use group_to_multiset_ensures, group_multiset_axioms;

    let a = s.subrange(0, p);
    let b = s.subrange(p, s.len() as int);
    assert(s =~= a + b);
    assert(s.insert(p, e) =~= a.push(e) + b);
    lemma_multiset_commutative(a.push(e), b);
    lemma_multiset_commutative(a, b);
}

fn name_less(a: &String, b: &String) -> (r: bool)
    ensures
        r == name_before(a@, b@),
{
    let x = a.as_str().as_bytes();
    let y = b.as_str().as_bytes();
    let ghost (sx, sy) = (encode_utf8(a@), encode_utf8(b@));
    let mut i: usize = 0;
    assert(sx.subrange(0, sx.len() as int) =~= sx);
    assert(sy.subrange(0, sy.len() as int) =~= sy);
    while i < x.len() && i < y.len() && x[i] == y[i]
        invariant
            x@ == sx,
            y@ == sy,
            i <= x@.len(),
            i <= y@.len(),
            bytes_before(sx, sy) == bytes_before(
                sx.subrange(i as int, sx.len() as int),
                sy.subrange(i as int, sy.len() as int),
            ),
        decreases x.len() - i,
    {
        assert(sx.subrange(i as int, sx.len() as int).drop_first() =~= sx.subrange(
            i + 1,
            sx.len() as int,
        ));
        assert(sy.subrange(i as int, sy.len() as int).drop_first() =~= sy.subrange(
            i + 1,
            sy.len() as int,
        ));
        i = i + 1;
    }
    if i == x.len() {
        i < y.len()
    } else if i == y.len() {
        false
    } else {
        x[i] < y[i]
    }
}

/// Whether `a` must stand strictly before `b` in a listing.
pub fn entry_precedes(a: &DirectoryEntry, b: &DirectoryEntry) -> (r: bool)
    ensures
        r == !entry_le(*b, *a),
{
    let ad = a.kind == EntryKind::Directory;
    let bd = b.kind == EntryKind::Directory;
    if ad != bd {
        ad
    } else {
        name_less(&a.name, &b.name)
    }
}

/// Puts entries in listing order: all directories first, each group sorted
/// by the bytes of the names. The result holds the same entries.
pub fn order_entries(entries: Vec<DirectoryEntry>) -> (r: Vec<DirectoryEntry>)
    ensures
        listing_ordered(r@),
        r@.to_multiset() =~= entries@.to_multiset(),
{
    broadcast use group_to_multiset_ensures, group_multiset_axioms;

    let mut rest = entries;
    let mut out: Vec<DirectoryEntry> = Vec::new();
    while rest.len() > 0
        invariant
            listing_ordered(out@),
            out@.to_multiset().add(rest@.to_multiset()) =~= entries@.to_multiset(),
        decreases rest.len(),
    {
        let ghost before = rest@;
        let e = rest.pop().unwrap();
        assert(before =~= rest@.push(e));
        proof {
            rest@.to_multiset_ensures();
        }
        assert(before.to_multiset() =~= rest@.to_multiset().insert(e));
        let mut p: usize = 0;
        while p < out.len() && !entry_precedes(&e, &out[p])
            invariant
                p <= out@.len(),
                forall|j: int| 0 <= j < p ==> entry_le(#[trigger] out@[j], e),
            decreases out.len() - p,
        {
            p = p + 1;
        }
        let ghost old_out = out@;
        proof {
            lemma_insert_to_multiset(old_out, p as int, e);
            if p < old_out.len() {
                lemma_entry_le_total(e, old_out[p as int]);
            }
        }
        out.insert(p, e);
        assert(out@.to_multiset() =~= old_out.to_multiset().insert(e));
        assert(out@.to_multiset().add(rest@.to_multiset()) =~= old_out.to_multiset().add(
            before.to_multiset(),
        ));
        assert forall|i: int, j: int| 0 <= i < j < out@.len() implies entry_le(
            #[trigger] out@[i],
            #[trigger] out@[j],
        ) by {
            if j < p {
                assert(entry_le(old_out[i], old_out[j]));
            } else if j == p {
            } else if i == p {
                assert(entry_le(old_out[p as int], old_out[j - 1]) || p == j - 1);
                if p < j - 1 {
                    lemma_entry_le_transitive(e, old_out[p as int], old_out[j - 1]);
                }
            } else if i < p {
                assert(entry_le(old_out[i], old_out[j - 1]));
            } else {
                assert(entry_le(old_out[i - 1], old_out[j - 1]));
            }
        }
    }
    assert(rest@ =~= Seq::<DirectoryEntry>::empty());
    out
}

/// In listing order every directory stands before every entry that is not
/// one, whatever their names; a symbolic link is never a directory here.
pub proof fn lemma_directories_first(s: Seq<DirectoryEntry>, i: int, j: int)
    requires
        listing_ordered(s),
        0 <= i < s.len(),
        0 <= j < s.len(),
        s[i].kind == EntryKind::Directory,
        s[j].kind != EntryKind::Directory,
    ensures
        i < j,
{
    if j < i {
        assert(entry_le(s[j], s[i]));
    }
}

/// Within each group, names appear in strictly increasing byte order when no
/// two entries share a name.
pub proof fn lemma_names_ascending(s: Seq<DirectoryEntry>, i: int, j: int)
    requires
        listing_ordered(s),
        0 <= i < j < s.len(),
        is_dir(s[i]) == is_dir(s[j]),
        s[i].name@ != s[j].name@,
    ensures
        name_before(s[i].name@, s[j].name@),
{
    assert(entry_le(s[i], s[j]));
    lemma_name_before_total(s[i].name@, s[j].name@);
}

/// Two listing orders of the same entries are the same sequence when no two
/// entries share a name: the order does not depend on how the directory
/// happened to be enumerated.
pub proof fn lemma_order_unique(a: Seq<DirectoryEntry>, b: Seq<DirectoryEntry>)
    requires
        listing_ordered(a),
        listing_ordered(b),
        a.to_multiset() == b.to_multiset(),
        names_unique(a.to_multiset()),
    ensures
        a == b,
    decreases a.len(),
{
    broadcast use group_to_multiset_ensures, group_multiset_axioms;

    a.to_multiset_ensures();
    b.to_multiset_ensures();
    if a.len() == 0 {
        assert(b.len() == 0);
        assert(a =~= b);
    } else {
        assert(b.len() == a.len());
        let m = a.to_multiset();
        assert(m.count(a[0]) > 0);
        assert(m.count(b[0]) > 0);
        let k = choose|k: int| 0 <= k < a.len() && a[k] == b[0];
        let n = choose|n: int| 0 <= n < b.len() && b[n] == a[0];
        if a[0] != b[0] {
            if k > 0 {
                assert(entry_le(a[0], a[k]));
            }
            if n > 0 {
                assert(entry_le(b[0], b[n]));
            }
            lemma_name_before_total(a[0].name@, b[0].name@);
        }
        assert(a.remove(0) =~= a.drop_first());
        assert(b.remove(0) =~= b.drop_first());
        let (a1, b1) = (a.drop_first(), b.drop_first());
        assert(a1.to_multiset() == m.remove(a[0]));
        assert(listing_ordered(a1)) by {
            assert forall|i: int, j: int| 0 <= i < j < a1.len() implies entry_le(
                #[trigger] a1[i],
                #[trigger] a1[j],
            ) by {
                assert(entry_le(a[i + 1], a[j + 1]));
            }
        }
        assert(listing_ordered(b1)) by {
            assert forall|i: int, j: int| 0 <= i < j < b1.len() implies entry_le(
                #[trigger] b1[i],
                #[trigger] b1[j],
            ) by {
                assert(entry_le(b[i + 1], b[j + 1]));
            }
        }
        assert(names_unique(a1.to_multiset())) by {
            assert forall|x: DirectoryEntry, y: DirectoryEntry|
                #[trigger] a1.to_multiset().count(x) > 0 && #[trigger] a1.to_multiset().count(y)
                    > 0 && x.name@ == y.name@ implies x == y by {
                assert(m.count(x) > 0 && m.count(y) > 0);
            }
        }
        lemma_order_unique(a1, b1);
        assert(a =~= b) by {
            assert forall|i: int| 0 <= i < a.len() implies a[i] == b[i] by {
                if i > 0 {
                    assert(a[i] == a1[i - 1]);
                }
            }
        }
    }
}

} // verus!
