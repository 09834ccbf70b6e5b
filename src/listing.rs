use vstd::prelude::*;
use vstd::multiset::Multiset;
use vstd::string::StrSliceExecFns;

verus! {

/// One filesystem entry of a listing.
pub struct FileNode {
    /// The entry's base name.
    pub name: String,
    /// The path through which the entry was reached.
    pub path: String,
    /// Whether the filesystem reports the entry as a directory.
    pub is_dir: bool,
    /// The entry's own listing: present only for a directory of a recursive listing.
    pub children: Option<Vec<FileNode>>,
}

/// Names that are left out of every listing: hidden names (a leading `.`)
/// and the fixed set of build and dependency directories.
pub open spec fn excluded_name(name: Seq<char>) -> bool {
    (name.len() > 0 && name[0] == '.')
    || name == "node_modules"@
    || name == "target"@
    || name == "__pycache__"@
}

/// Whether an entry of this name is left out of a listing.
pub fn is_excluded(name: &str) -> (r: bool)
    ensures
        r == excluded_name(name@),
{
    proof {
        reveal_strlit("node_modules");
        reveal_strlit("target");
        reveal_strlit("__pycache__");
    }
    let n: usize = name.unicode_len();
    if n > 0 && name.get_char(0) == '.' {
        return true;
    }
    str_eq(name, "node_modules") || str_eq(name, "target") || str_eq(name, "__pycache__")
}

fn str_eq(a: &str, b: &str) -> (r: bool)
    ensures
        r == (a@ == b@),
{
    let n: usize = a.unicode_len();
    let m: usize = b.unicode_len();
    if n != m {
        return false;
    }
    let mut i: usize = 0;
    while i < n
        invariant
            n == a@.len(),
            m == b@.len(),
            n == m,
            i <= n,
            a@.subrange(0, i as int) == b@.subrange(0, i as int),
        decreases n - i,
    {
        if a.get_char(i) != b.get_char(i) {
            return false;
        }
        assert(a@.subrange(0, i + 1) == a@.subrange(0, i as int).push(a@[i as int]));
        assert(b@.subrange(0, i + 1) == b@.subrange(0, i as int).push(b@[i as int]));
        i = i + 1;
    }
    assert(a@ == a@.subrange(0, n as int));
    assert(b@ == b@.subrange(0, n as int));
    true
}

/// Whether an entry read from a directory gets a listing of its own: it is
/// shown, it is a directory, and the listing is recursive.
pub fn wants_children(name: &str, is_dir: bool, recursive: bool) -> (r: bool)
    ensures
        r == (!excluded_name(name@) && is_dir && recursive),
{
    is_dir && recursive && !is_excluded(name)
}


/// The node of an entry read from a directory. A directory of a recursive
/// listing carries `listed`, its own arranged entries; any other entry has no
/// children.
pub fn entry_node(name: String, path: String, is_dir: bool, recursive: bool, listed: Vec<FileNode>) -> (r: FileNode)
    ensures
        r.name == name,
        r.path == path,
        r.is_dir == is_dir,
        r.children == (if is_dir && recursive { Some(listed) } else { None::<Vec<FileNode>> }),
{
    let children = if is_dir && recursive {
        Some(listed)
    } else {
        None
    };
    FileNode { name, path, is_dir, children }
}

/// Lexicographic order on character sequences, by code point; a prefix
/// comes first.
pub open spec fn chars_le(a: Seq<char>, b: Seq<char>) -> bool
    decreases a.len(),
{
    if a.len() == 0 {
        true
    } else if b.len() == 0 {
        false
    } else if a[0] != b[0] {
        (a[0] as int) < (b[0] as int)
    } else {
        chars_le(a.drop_first(), b.drop_first())
    }
}

/// Either of two character sequences comes first.
pub proof fn lemma_chars_le_total(a: Seq<char>, b: Seq<char>)
    ensures
        chars_le(a, b) || chars_le(b, a),
    decreases a.len(),
{
    if a.len() > 0 && b.len() > 0 && a[0] == b[0] {
        lemma_chars_le_total(a.drop_first(), b.drop_first());
    }
}

/// The lexicographic order is transitive.
pub proof fn lemma_chars_le_transitive(a: Seq<char>, b: Seq<char>, c: Seq<char>)
    requires
        chars_le(a, b),
        chars_le(b, c),
    ensures
        chars_le(a, c),
    decreases a.len(),
{
    if a.len() > 0 && b.len() > 0 && c.len() > 0 && a[0] == b[0] && b[0] == c[0] {
        lemma_chars_le_transitive(a.drop_first(), b.drop_first(), c.drop_first());
    }
}

/// The case-folded form of a name, as `str::to_lowercase` gives it.
pub uninterp spec fn lower_of(s: Seq<char>) -> Seq<char>;

/// Relies on `str::to_lowercase` for the case-folded name, read out as its characters.
#[verifier::external_body]
fn lowercase_chars(s: &str) -> (r: Vec<char>)
    ensures
        r@ == lower_of(s@),
{
    s.to_lowercase().chars().collect()
}

/// Sibling order on the sort keys of two entries: directories before files,
/// and within each group by case-folded name.
pub open spec fn keys_precede(a_dir: bool, a_key: Seq<char>, b_dir: bool, b_key: Seq<char>) -> bool {
    (a_dir && !b_dir) || (a_dir == b_dir && chars_le(a_key, b_key))
}

/// Sibling order on entries.
pub open spec fn precedes(a: FileNode, b: FileNode) -> bool {
    keys_precede(a.is_dir, lower_of(a.name@), b.is_dir, lower_of(b.name@))
}

/// A sibling group in listing order.
pub open spec fn sorted_nodes(s: Seq<FileNode>) -> bool {
    forall|i: int, j: int| 0 <= i < j < s.len() ==> precedes(#[trigger] s[i], #[trigger] s[j])
}

/// The entries of a sequence that a listing shows, counted with repetition.
pub open spec fn kept(s: Seq<FileNode>) -> Multiset<FileNode>
    decreases s.len(),
{
    if s.len() == 0 {
        Multiset::empty()
    } else if excluded_name(s.last().name@) {
        kept(s.drop_last())
    } else {
        kept(s.drop_last()).insert(s.last())
    }
}

/// A listing shows each entry with a hidden or ignored name zero times, and
/// every other entry as often as it was read.
pub proof fn lemma_kept_counts(s: Seq<FileNode>, n: FileNode)
    ensures
        kept(s).count(n) == (if excluded_name(n.name@) { 0 } else { s.to_multiset().count(n) }),
    decreases s.len(),
{
    broadcast use vstd::seq_lib::group_to_multiset_ensures;
    if s.len() > 0 {
        lemma_kept_counts(s.drop_last(), n);
        assert(s.drop_last().push(s.last()) == s);
    } else {
        assert(s.to_multiset().count(n) == 0);
    }
}

/// Every node of an arranged sibling group is one of the entries it was
/// arranged from, unchanged: its children are those the entry was given (so a
/// level built without recursion has no children anywhere).
pub proof fn lemma_listed_nodes_were_read(entries: Seq<FileNode>, r: Seq<FileNode>)
    requires
        r.to_multiset() == kept(entries),
    ensures
        forall|i: int| 0 <= i < r.len() ==> entries.contains(#[trigger] r[i]),
{
    broadcast use vstd::seq_lib::group_to_multiset_ensures;
    assert forall|i: int| 0 <= i < r.len() implies entries.contains(#[trigger] r[i]) by {
        assert(r.contains(r[i]));
        lemma_kept_counts(entries, r[i]);
    }
}

/// A level arranged from entries that carry no children (as `entry_node`
/// builds them when the listing is not recursive) lists no children at all.
pub proof fn lemma_flat_level_has_no_children(entries: Seq<FileNode>, r: Seq<FileNode>)
    requires
        r.to_multiset() == kept(entries),
        forall|i: int| 0 <= i < entries.len() ==> (#[trigger] entries[i]).children is None,
    ensures
        forall|i: int| 0 <= i < r.len() ==> (#[trigger] r[i]).children is None,
{
    lemma_listed_nodes_were_read(entries, r);
    assert forall|i: int| 0 <= i < r.len() implies (#[trigger] r[i]).children is None by {
        assert(entries.contains(r[i]));
        let k = choose|k: int| 0 <= k < entries.len() && entries[k] == r[i];
        assert(entries[k].children is None);
    }
}

proof fn lemma_precedes_total(a: FileNode, b: FileNode)
    ensures
        precedes(a, b) || precedes(b, a),
{
    lemma_chars_le_total(lower_of(a.name@), lower_of(b.name@));
}

proof fn lemma_precedes_transitive(a: FileNode, b: FileNode, c: FileNode)
    requires
        precedes(a, b),
        precedes(b, c),
    ensures
        precedes(a, c),
{
    if a.is_dir == b.is_dir && b.is_dir == c.is_dir {
        lemma_chars_le_transitive(lower_of(a.name@), lower_of(b.name@), lower_of(c.name@));
    }
}

/// In a sibling group in listing order every directory stands before every
/// file, and within the directories and within the files the case-folded
/// names ascend.
pub proof fn lemma_directories_first(s: Seq<FileNode>)
    requires
        sorted_nodes(s),
    ensures
        forall|i: int, j: int|
            0 <= i < s.len() && 0 <= j < s.len() && (#[trigger] s[i]).is_dir && !(#[trigger] s[j]).is_dir
                ==> i < j,
        forall|i: int, j: int|
            0 <= i < j < s.len() && (#[trigger] s[i]).is_dir == (#[trigger] s[j]).is_dir
                ==> chars_le(lower_of(s[i].name@), lower_of(s[j].name@)),
{
    assert forall|i: int, j: int|
        0 <= i < s.len() && 0 <= j < s.len() && (#[trigger] s[i]).is_dir && !(#[trigger] s[j]).is_dir
            implies i < j by {
        if j < i {
            assert(precedes(s[j], s[i]));
        }
    }
    assert forall|i: int, j: int|
        0 <= i < j < s.len() && (#[trigger] s[i]).is_dir == (#[trigger] s[j]).is_dir
            implies chars_le(lower_of(s[i].name@), lower_of(s[j].name@)) by {
        assert(precedes(s[i], s[j]));
    }
}

/// Lexicographic comparison of two character sequences.
fn chars_in_order(a: &Vec<char>, b: &Vec<char>) -> (r: bool)
    ensures
        r == chars_le(a@, b@),
{
    let mut i: usize = 0;
    assert(a@.subrange(0, a@.len() as int) == a@);
    assert(b@.subrange(0, b@.len() as int) == b@);
    while i < a.len() && i < b.len()
        invariant
            i <= a@.len(),
            i <= b@.len(),
            chars_le(a@, b@) == chars_le(
                a@.subrange(i as int, a@.len() as int),
                b@.subrange(i as int, b@.len() as int),
            ),
        decreases a@.len() - i,
    {
        if a[i] != b[i] {
            return a[i] < b[i];
        }
        assert(a@.subrange(i as int, a@.len() as int).drop_first()
            == a@.subrange(i + 1, a@.len() as int));
        assert(b@.subrange(i as int, b@.len() as int).drop_first()
            == b@.subrange(i + 1, b@.len() as int));
        i = i + 1;
    }
    i == a.len()
}

/// Sibling order on sort keys, given each entry's directory flag and
/// case-folded name.
pub fn keys_in_order(a_dir: bool, a_key: &Vec<char>, b_dir: bool, b_key: &Vec<char>) -> (r: bool)
    ensures
        r == keys_precede(a_dir, a_key@, b_dir, b_key@),
{
    if a_dir != b_dir {
        a_dir
    } else {
        chars_in_order(a_key, b_key)
    }
}

/// Whether entry `a` may stand before entry `b` among siblings.
pub fn node_precedes(a: &FileNode, b: &FileNode) -> (r: bool)
    ensures
        r == precedes(*a, *b),
{
    let ka = lowercase_chars(a.name.as_str());
    let kb = lowercase_chars(b.name.as_str());
    keys_in_order(a.is_dir, &ka, b.is_dir, &kb)
}

/// One sibling group of a listing: drops hidden and ignored entries and puts
/// the rest in listing order (directories first, then by case-folded name;
/// entries with equal keys keep the order in which they were given).
pub fn arrange_level(entries: Vec<FileNode>) -> (r: Vec<FileNode>)
    ensures
        sorted_nodes(r@),
        r@.to_multiset() == kept(entries@),
        forall|i: int| 0 <= i < r@.len() ==> !excluded_name(#[trigger] r@[i].name@),
{
    broadcast use vstd::seq_lib::group_to_multiset_ensures;
    let mut rest = entries;
    let mut out: Vec<FileNode> = Vec::new();
    let mut keys: Vec<Vec<char>> = Vec::new();
    while rest.len() > 0
        invariant
            out@.len() == keys@.len(),
            forall|k: int| 0 <= k < keys@.len() ==> (#[trigger] keys@[k])@ == lower_of(out@[k].name@),
            sorted_nodes(out@),
            out@.to_multiset().add(kept(rest@)) == kept(entries@),
            forall|i: int| 0 <= i < out@.len() ==> !excluded_name(#[trigger] out@[i].name@),
        decreases rest@.len(),
    {
        let ghost before = rest@;
        let node = rest.pop().unwrap();
        assert(before.drop_last() == rest@);
        if !is_excluded(node.name.as_str()) {
            let key = lowercase_chars(node.name.as_str());
            let mut k: usize = 0;
            let mut stop = false;
            while !stop && k < out.len()
                invariant
                    k <= out@.len(),
                    out@.len() == keys@.len(),
                    forall|q: int| 0 <= q < keys@.len() ==> (#[trigger] keys@[q])@ == lower_of(out@[q].name@),
                    key@ == lower_of(node.name@),
                    forall|j: int| 0 <= j < k ==> precedes(#[trigger] out@[j], node),
                    stop ==> (k < out@.len() && precedes(node, out@[k as int])),
                decreases out@.len() - k + (if stop { 0int } else { 1int }),
            {
                if keys_in_order(node.is_dir, &key, out[k].is_dir, &keys[k]) {
                    stop = true;
                } else {
                    proof {
                        lemma_precedes_total(node, out@[k as int]);
                    }
                    k = k + 1;
                }
            }
            let ghost old_out = out@;
            out.insert(k, node);
            keys.insert(k, key);
            proof {
                assert forall|i: int, j: int| 0 <= i < j < out@.len() implies precedes(
                    #[trigger] out@[i],
                    #[trigger] out@[j],
                ) by {
                    if j == k {
                    } else if i == k {
                        if j > k + 1 {
                            lemma_precedes_transitive(node, old_out[k as int], old_out[j - 1]);
                        }
                    } else if i < k && j > k {
                        assert(precedes(old_out[i], old_out[j - 1]));
                    }
                }
                assert(out@.remove(k as int) == old_out);
                out@.to_multiset_ensures();
                assert(out@.remove(k as int).to_multiset() == out@.to_multiset().remove(node));
                assert(out@.to_multiset().remove(node) == old_out.to_multiset());
                assert(out@.to_multiset() =~= old_out.to_multiset().insert(node));
                assert(out@.to_multiset().add(kept(rest@)) =~= old_out.to_multiset().add(kept(before)));
            }
        } else {
            assert(out@.to_multiset().add(kept(rest@)) =~= out@.to_multiset().add(kept(before)));
        }
    }
    assert(kept(rest@) =~= Multiset::empty());
    assert(out@.to_multiset() =~= out@.to_multiset().add(kept(rest@)));
    out
}

} // verus!
