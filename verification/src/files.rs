//! The entries of a directory listing: which files are listed, and in what
//! order the entries of one directory stand.

use vstd::prelude::*;
use vstd::multiset::Multiset;
use vstd::seq_lib::to_multiset_insert;
use vstd::string::StringExecFns;
use vstd::utf8::encode_utf8;

verus! {

/// One entry of a directory listing: a directory with the entries below it,
/// or a canvas file.
#[derive(Debug)]
pub struct FileNode {
    pub name: String,
    pub path: String,
    pub is_directory: bool,
    pub children: Option<Vec<FileNode>>,
}

/// Whether `a` stands before `b` in the order of the dictionary, or is `b`:
/// `a` is the beginning of `b`, or at the first place where the two differ
/// `a` has the smaller byte.
pub open spec fn bytes_le(a: Seq<u8>, b: Seq<u8>) -> bool {
    exists|p: int|
        {
            &&& 0 <= p <= a.len()
            &&& p <= b.len()
            &&& #[trigger] a.take(p) == b.take(p)
            &&& p == a.len() || (p < b.len() && a[p] < b[p])
        }
}

/// Compares two byte strings in the order of the dictionary.
pub fn bytes_less_or_equal(a: &[u8], b: &[u8]) -> (r: bool)
    ensures
        r == bytes_le(a@, b@),
{
    let mut i: usize = 0;
    while i < a.len() && i < b.len() && a[i] == b[i]
        invariant
            i <= a@.len(),
            i <= b@.len(),
            a@.take(i as int) == b@.take(i as int),
        decreases a@.len() - i,
    {
        assert(a@.take(i as int + 1) =~= a@.take(i as int).push(a@[i as int]));
        assert(b@.take(i as int + 1) =~= b@.take(i as int).push(b@[i as int]));
        i += 1;
    }
    let r = i == a.len() || (i < b.len() && a[i] < b[i]);
    proof {
        if !r {
            assert forall|p: int|
                0 <= p <= a@.len() && p <= b@.len() && #[trigger] a@.take(p) == b@.take(p) implies !(p
                == a@.len() || (p < b@.len() && a@[p] < b@[p])) by {
                lemma_common_prefixes(a@, b@, i as int, p);
                if p < i {
                    assert(a@.take(i as int)[p] == a@[p]);
                    assert(b@.take(i as int)[p] == b@[p]);
                }
            }
        }
    }
    r
}

/// Two common beginnings of `a` and `b` of which the first ends where the
/// two differ or where one of the two ends: the other one is no longer.
proof fn lemma_common_prefixes(a: Seq<u8>, b: Seq<u8>, i: int, p: int)
    requires
        0 <= i <= a.len(),
        i <= b.len(),
        a.take(i) == b.take(i),
        0 <= p <= a.len(),
        p <= b.len(),
        a.take(p) == b.take(p),
        i == a.len() || i == b.len() || a[i] != b[i],
    ensures
        p <= i,
{
    if p > i {
        assert(a.take(p)[i] == a[i]);
        assert(b.take(p)[i] == b[i]);
    }
}

/// Every byte string stands before itself or is itself.
pub proof fn lemma_bytes_le_reflexive(a: Seq<u8>)
    ensures
        bytes_le(a, a),
{
    assert(a.take(a.len() as int) == a.take(a.len() as int));
}

/// Of two byte strings one stands before the other, or the two are one.
pub proof fn lemma_bytes_le_total(a: Seq<u8>, b: Seq<u8>)
    ensures
        bytes_le(a, b) || bytes_le(b, a),
{
    assert(a.take(0) =~= b.take(0));
    lemma_bytes_le_total_from(a, b, 0);
}

proof fn lemma_bytes_le_total_from(a: Seq<u8>, b: Seq<u8>, i: int)
    requires
        0 <= i <= a.len(),
        i <= b.len(),
        a.take(i) == b.take(i),
    ensures
        bytes_le(a, b) || bytes_le(b, a),
    decreases a.len() - i,
{
    if i < a.len() && i < b.len() && a[i] == b[i] {
        assert(a.take(i + 1) =~= a.take(i).push(a[i]));
        assert(b.take(i + 1) =~= b.take(i).push(b[i]));
        lemma_bytes_le_total_from(a, b, i + 1);
    } else if i == a.len() || (i < b.len() && a[i] < b[i]) {
        assert(a.take(i) == b.take(i));
    } else {
        assert(b.take(i) == a.take(i));
    }
}

/// What stands before a byte string stands before everything that this one
/// stands before.
pub proof fn lemma_bytes_le_transitive(a: Seq<u8>, b: Seq<u8>, c: Seq<u8>)
    requires
        bytes_le(a, b),
        bytes_le(b, c),
    ensures
        bytes_le(a, c),
{
    let p = choose|p: int|
        {
            &&& 0 <= p <= a.len()
            &&& p <= b.len()
            &&& #[trigger] a.take(p) == b.take(p)
            &&& p == a.len() || (p < b.len() && a[p] < b[p])
        };
    let q = choose|q: int|
        {
            &&& 0 <= q <= b.len()
            &&& q <= c.len()
            &&& #[trigger] b.take(q) == c.take(q)
            &&& q == b.len() || (q < c.len() && b[q] < c[q])
        };
    let m = if p <= q {
        p
    } else {
        q
    };
    assert(a.take(m) =~= c.take(m)) by {
        assert forall|i: int| 0 <= i < m implies a[i] == c[i] by {
            assert(a.take(p)[i] == a[i] && b.take(p)[i] == b[i]);
            assert(b.take(q)[i] == b[i] && c.take(q)[i] == c[i]);
        }
    }
    if p < q {
        if p < a.len() {
            assert(b.take(q)[p] == b[p] && c.take(q)[p] == c[p]);
        }
    } else if q < p {
        assert(a.take(p)[q] == a[q] && b.take(p)[q] == b[q]);
    }
}

/// Two byte strings of which each stands before the other or is the other
/// are one.
pub proof fn lemma_bytes_le_antisymmetric(a: Seq<u8>, b: Seq<u8>)
    requires
        bytes_le(a, b),
        bytes_le(b, a),
    ensures
        a == b,
{
    let p = choose|p: int|
        {
            &&& 0 <= p <= a.len()
            &&& p <= b.len()
            &&& #[trigger] a.take(p) == b.take(p)
            &&& p == a.len() || (p < b.len() && a[p] < b[p])
        };
    let q = choose|q: int|
        {
            &&& 0 <= q <= b.len()
            &&& q <= a.len()
            &&& #[trigger] b.take(q) == a.take(q)
            &&& q == b.len() || (q < a.len() && b[q] < a[q])
        };
    if p < a.len() {
        if q > p {
            assert(a.take(q)[p] == a[p] && b.take(q)[p] == b[p]);
        } else if q < p {
            assert(a.take(p)[q] == a[q] && b.take(p)[q] == b[q]);
        }
    } else if q < b.len() {
        assert(a.take(p)[q] == a[q] && b.take(p)[q] == b[q]);
    } else {
        assert(a.take(p) =~= a);
        assert(b.take(q) =~= b);
    }
}

/// Where nothing passes a filter, nothing is left.
proof fn lemma_filter_none<T>(s: Seq<T>, pred: spec_fn(T) -> bool)
    requires
        forall|i: int| 0 <= i < s.len() ==> !pred(#[trigger] s[i]),
    ensures
        s.filter(pred) == Seq::<T>::empty(),
    decreases s.len(),
{
    reveal(Seq::filter);
    if s.len() > 0 {
        lemma_filter_none(s.drop_last(), pred);
    }
}

/// What passes a filter after `x` has been put in at `pos`, where `x` does
/// not pass, or nothing before `pos` does.
proof fn lemma_filter_insert<T>(s: Seq<T>, pos: int, x: T, pred: spec_fn(T) -> bool)
    requires
        0 <= pos <= s.len(),
        forall|i: int| 0 <= i < pos && pred(x) ==> !pred(#[trigger] s[i]),
    ensures
        s.insert(pos, x).filter(pred) == (if pred(x) {
            seq![x]
        } else {
            Seq::empty()
        }) + s.filter(pred),
    decreases s.len(),
{
    if pos == s.len() {
        assert(s.insert(pos, x) =~= s.push(x));
        s.lemma_filter_push(x, pred);
        if pred(x) {
            lemma_filter_none(s, pred);
            assert(s.filter(pred).push(x) =~= seq![x] + s.filter(pred));
        } else {
            assert(s.filter(pred) =~= Seq::<T>::empty() + s.filter(pred));
        }
    } else {
        let front = s.drop_last();
        assert(s =~= front.push(s.last()));
        assert(s.insert(pos, x) =~= front.insert(pos, x).push(s.last()));
        lemma_filter_insert(front, pos, x, pred);
        front.insert(pos, x).lemma_filter_push(s.last(), pred);
        front.lemma_filter_push(s.last(), pred);
        let first = if pred(x) {
            seq![x]
        } else {
            Seq::empty()
        };
        if pred(s.last()) {
            assert((first + front.filter(pred)).push(s.last()) =~= first + front.filter(pred).push(
                s.last(),
            ));
        }
    }
}

/// What decides the place of an entry among the entries of its directory:
/// whether it is a directory, and the bytes of its name.
pub struct NodeKey {
    pub is_directory: bool,
    pub name: Seq<u8>,
}

/// Whether an entry with the key `a` may stand before one with the key `b`:
/// directories stand before files, and among directories and among files the
/// names decide, byte by byte.
pub open spec fn key_le(a: NodeKey, b: NodeKey) -> bool {
    if a.is_directory == b.is_directory {
        bytes_le(a.name, b.name)
    } else {
        a.is_directory
    }
}

/// The entries with the key `k`.
pub open spec fn has_key(k: NodeKey) -> spec_fn(FileNode) -> bool {
    |n: FileNode| n.sort_key() == k
}

/// Whether every entry may stand before all that follow it.
pub open spec fn nodes_sorted(nodes: Seq<FileNode>) -> bool {
    forall|i: int, j: int|
        0 <= i < j < nodes.len() ==> key_le(
            (#[trigger] nodes[i]).sort_key(),
            (#[trigger] nodes[j]).sort_key(),
        )
}

/// The extension of a canvas file, without the dot.
pub open spec fn canvas_extension() -> Seq<char> {
    "kairo"@
}

impl FileNode {
    /// The key by which this entry is sorted.
    pub open spec fn sort_key(self) -> NodeKey {
        NodeKey { is_directory: self.is_directory, name: encode_utf8(self.name@) }
    }

    /// The entry for a directory with the entries `children` below it.
    pub fn directory(name: String, path: String, children: Vec<FileNode>) -> (r: FileNode)
        ensures
            r == (FileNode { name, path, is_directory: true, children: Some(children) }),
    {
        FileNode { name, path, is_directory: true, children: Some(children) }
    }

    /// The entry for a file, where the file is listed: a file is listed when
    /// its extension is that of a canvas file.
    pub fn file(name: String, path: String, extension: Option<String>) -> (r: Option<FileNode>)
        ensures
            r == (if extension matches Some(e) && e@ == canvas_extension() {
                Some(FileNode { name, path, is_directory: false, children: None })
            } else {
                None
            }),
    {
        match extension {
            Some(e) => {
                if e == String::from_str("kairo") {
                    Some(FileNode { name, path, is_directory: false, children: None })
                } else {
                    None
                }
            },
            None => None,
        }
    }

    /// Whether this entry may stand before `other`.
    pub fn stands_before(&self, other: &FileNode) -> (r: bool)
        ensures
            r == key_le(self.sort_key(), other.sort_key()),
    {
        if self.is_directory == other.is_directory {
            bytes_less_or_equal(self.name.as_str().as_bytes(), other.name.as_str().as_bytes())
        } else {
            self.is_directory
        }
    }
}

/// Of two keys one may stand before the other.
pub proof fn lemma_key_le_total(a: NodeKey, b: NodeKey)
    ensures
        key_le(a, b) || key_le(b, a),
{
    lemma_bytes_le_total(a.name, b.name);
}

/// The order of the keys is transitive.
pub proof fn lemma_key_le_transitive(a: NodeKey, b: NodeKey, c: NodeKey)
    requires
        key_le(a, b),
        key_le(b, c),
    ensures
        key_le(a, c),
{
    if a.is_directory == b.is_directory && b.is_directory == c.is_directory {
        lemma_bytes_le_transitive(a.name, b.name, c.name);
    }
}

/// Sorts the entries of one directory: directories first, then files, each
/// by name. Entries that share a key keep the order in which they came.
pub fn sort_nodes(entries: Vec<FileNode>) -> (r: Vec<FileNode>)
    ensures
        nodes_sorted(r@),
        r@.to_multiset() == entries@.to_multiset(),
        forall|k: NodeKey| #[trigger] r@.filter(has_key(k)) == entries@.filter(has_key(k)),
{
    let ghost all = entries@;
    let mut rest = entries;
    let mut out: Vec<FileNode> = Vec::new();
    proof {
        assert(all.skip(all.len() as int) =~= Seq::<FileNode>::empty());
        assert(all.take(all.len() as int) =~= all);
        assert(all.to_multiset().add(out@.to_multiset()) =~= all.to_multiset()) by {
            out@.to_multiset_ensures();
        }
    }
    while rest.len() > 0
        invariant
            rest@.len() <= all.len(),
            rest@ == all.take(rest@.len() as int),
            nodes_sorted(out@),
            rest@.to_multiset().add(out@.to_multiset()) == all.to_multiset(),
            forall|k: NodeKey| #[trigger]
                out@.filter(has_key(k)) == all.skip(rest@.len() as int).filter(has_key(k)),
        decreases rest@.len(),
    {
        let ghost rest_before = rest@;
        let ghost out_before = out@;
        let node = rest.pop().unwrap();
        let mut pos: usize = 0;
        while pos < out.len() && !node.stands_before(&out[pos])
            invariant
                pos <= out@.len(),
                forall|i: int|
                    0 <= i < pos ==> !key_le(node.sort_key(), (#[trigger] out@[i]).sort_key()),
            decreases out@.len() - pos,
        {
            pos += 1;
        }
        out.insert(pos, node);
        proof {
            let n = rest@.len() as int;
            assert(rest@ =~= all.take(n));
            assert(node == all[n]);
            assert(nodes_sorted(out@)) by {
                assert forall|i: int, j: int| 0 <= i < j < out@.len() implies key_le(
                    (#[trigger] out@[i]).sort_key(),
                    (#[trigger] out@[j]).sort_key(),
                ) by {
                    if j == pos {
                        lemma_key_le_total(out@[i].sort_key(), node.sort_key());
                    } else if i == pos {
                        if j > pos + 1 {
                            lemma_key_le_transitive(
                                node.sort_key(),
                                out_before[pos as int].sort_key(),
                                out_before[j - 1].sort_key(),
                            );
                        }
                    } else {
                        let oi = if i < pos {
                            i
                        } else {
                            i - 1
                        };
                        let oj = if j < pos {
                            j
                        } else {
                            j - 1
                        };
                        assert(out@[i] == out_before[oi] && out@[j] == out_before[oj]);
                    }
                }
            }
            assert(rest@.to_multiset().add(out@.to_multiset()) =~= all.to_multiset()) by {
                to_multiset_insert(out_before, pos as int, node);
                assert(rest_before =~= rest@.push(node));
                rest@.to_multiset_ensures();
            }
            assert forall|k: NodeKey| #[trigger]
                out@.filter(has_key(k)) == all.skip(n).filter(has_key(k)) by {
                let pred = has_key(k);
                assert forall|i: int| 0 <= i < pos && pred(node) implies !pred(
                    #[trigger] out_before[i],
                ) by {
                    lemma_bytes_le_reflexive(node.sort_key().name);
                }
                lemma_filter_insert(out_before, pos as int, node, pred);
                assert(all.skip(n) =~= seq![node] + all.skip(n + 1));
                all.skip(n + 1).lemma_filter_prepend(node, pred);
                assert(out_before.filter(pred) == all.skip(n + 1).filter(pred));
            }
        }
    }
    proof {
        assert(all.skip(0) =~= all);
        assert(rest@.to_multiset() =~= Multiset::<FileNode>::empty()) by {
            rest@.to_multiset_ensures();
        }
        assert(out@.to_multiset() =~= all.to_multiset());
    }
    out
}

} // verus!
