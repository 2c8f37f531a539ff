//! The payload of trees: entries `mode SP path NUL digest`, the digest as 20
//! raw bytes, in ascending order of path.

use vstd::prelude::*;
use crate::bytes::{copy_range, find_byte, lemma_first_found, lemma_first_is, push_all, NUL, SPACE};
use crate::record::no_byte;

verus! {

/// Length of a raw digest in bytes.
pub const DIGEST_LEN: usize = 20;

/// One entry of a tree: a file mode in octal, a path segment, and the raw
/// digest of the child object.
#[derive(Clone, Debug, PartialEq, Eq)]
pub struct TreeEntry {
    pub mode: Vec<u8>,
    pub path: Vec<u8>,
    pub id: Vec<u8>,
}

pub struct EntryView {
    pub mode: Seq<u8>,
    pub path: Seq<u8>,
    pub id: Seq<u8>,
}

impl View for TreeEntry {
    type V = EntryView;

    open spec fn view(&self) -> EntryView {
        EntryView { mode: self.mode@, path: self.path@, id: self.id@ }
    }
}

pub open spec fn entry_views(es: Seq<TreeEntry>) -> Seq<EntryView> {
    es.map_values(|e: TreeEntry| e@)
}

/// A mode as it is written: octal digits, at least one, the first not zero.
pub open spec fn mode_ok(m: Seq<u8>) -> bool {
    &&& m.len() >= 1
    &&& m[0] != 48
    &&& forall|i: int| 0 <= i < m.len() ==> 48 <= #[trigger] m[i] <= 55
}

pub open spec fn entry_ok(e: EntryView) -> bool {
    &&& mode_ok(e.mode)
    &&& no_byte(e.path, NUL)
    &&& e.id.len() == DIGEST_LEN
}

pub open spec fn entries_ok(es: Seq<EntryView>) -> bool {
    forall|i: int| 0 <= i < es.len() ==> entry_ok(#[trigger] es[i])
}

/// `a` and `b` hold the same bytes at every position before `k`.
pub open spec fn agree(a: Seq<u8>, b: Seq<u8>, k: int) -> bool {
    &&& 0 <= k <= a.len()
    &&& k <= b.len()
    &&& forall|j: int| 0 <= j < k ==> a[j] == b[j]
}

/// `a` comes before `b` at position `k`: they agree before it, and there
/// `a` ends while `b` goes on, or `a` holds the smaller byte.
pub open spec fn less_at(a: Seq<u8>, b: Seq<u8>, k: int) -> bool {
    &&& agree(a, b, k)
    &&& k < b.len()
    &&& (k == a.len() || a[k] < b[k])
}

/// Byte-wise lexicographic order; a proper prefix comes first.
pub open spec fn bytes_less(a: Seq<u8>, b: Seq<u8>) -> bool {
    exists|k: int| less_at(a, b, k)
}

/// Each entry's path comes strictly before the next one's.
pub open spec fn paths_ascend(es: Seq<EntryView>) -> bool {
    forall|i: int| 0 <= i < es.len() - 1 ==> bytes_less(#[trigger] es[i].path, es[i + 1].path)
}

/// The entries of a well-formed tree.
pub open spec fn tree_ok(es: Seq<EntryView>) -> bool {
    entries_ok(es) && paths_ascend(es)
}

pub open spec fn entry_bytes(e: EntryView) -> Seq<u8> {
    e.mode + seq![SPACE] + e.path + seq![NUL] + e.id
}

/// The payload bytes of a tree: its entries one after another.
pub open spec fn tree_bytes(es: Seq<EntryView>) -> Seq<u8>
    decreases es.len(),
{
    if es.len() == 0 {
        Seq::empty()
    } else {
        entry_bytes(es[0]) + tree_bytes(es.skip(1))
    }
}

/// What a payload reads as, entry by entry: the mode up to the first space,
/// the path up to the next NUL, then 20 bytes of digest. `None` where an
/// entry is cut short.
pub open spec fn parse_entries(t: Seq<u8>) -> Option<Seq<EntryView>>
    decreases t.len(),
{
    if t.len() == 0 {
        Some(Seq::empty())
    } else {
        match t.index_of_first(SPACE) {
            Some(sp) if 0 <= sp < t.len() => {
                let after = t.subrange(sp + 1, t.len() as int);
                match after.index_of_first(NUL) {
                    Some(nu) if 0 <= nu && nu + 1 + DIGEST_LEN <= after.len() => {
                        let e = EntryView {
                            mode: t.subrange(0, sp),
                            path: after.subrange(0, nu),
                            id: after.subrange(nu + 1, nu + 1 + DIGEST_LEN),
                        };
                        match parse_entries(after.subrange(nu + 1 + DIGEST_LEN, after.len() as int)) {
                            Some(rest) => Some(seq![e] + rest),
                            None => None,
                        }
                    },
                    _ => None,
                }
            },
            _ => None,
        }
    }
}

/// What a payload reads as when it is a well-formed tree.
pub open spec fn parse_tree(t: Seq<u8>) -> Option<Seq<EntryView>> {
    match parse_entries(t) {
        Some(es) if tree_ok(es) => Some(es),
        _ => None,
    }
}

/// Reading what was written gives the entries back.
pub proof fn lemma_entries_read_back(es: Seq<EntryView>)
    requires
        entries_ok(es),
    ensures
        parse_entries(tree_bytes(es)) == Some(es),
    decreases es.len(),
{
    let t = tree_bytes(es);
    if es.len() == 0 {
        assert(es =~= Seq::<EntryView>::empty());
    } else {
        let e = es[0];
        let rest = es.skip(1);
        let tail = tree_bytes(rest);
        assert(entry_ok(e));
        assert forall|i: int| 0 <= i < rest.len() implies entry_ok(#[trigger] rest[i]) by {
            assert(rest[i] == es[i + 1]);
        }
        lemma_entries_read_back(rest);
        let sp: int = e.mode.len() as int;
        assert(t =~= entry_bytes(e) + tail);
        assert forall|j: int| 0 <= j < sp implies t[j] != SPACE by {
            assert(t[j] == e.mode[j]);
        }
        assert(t[sp] == SPACE);
        lemma_first_is(t, SPACE, sp);
        let after = t.subrange(sp + 1, t.len() as int);
        assert(after =~= e.path + seq![NUL] + e.id + tail);
        let nu: int = e.path.len() as int;
        assert forall|j: int| 0 <= j < nu implies after[j] != NUL by {
            assert(after[j] == e.path[j]);
        }
        assert(after[nu] == NUL);
        lemma_first_is(after, NUL, nu);
        assert(t.subrange(0, sp) =~= e.mode);
        assert(after.subrange(0, nu) =~= e.path);
        assert(after.subrange(nu + 1, nu + 1 + DIGEST_LEN) =~= e.id);
        assert(after.subrange(nu + 1 + DIGEST_LEN, after.len() as int) =~= tail);
        assert(seq![e] + rest =~= es);
    }
}

/// What was read is written back as the same bytes.
pub proof fn lemma_entries_write_back(t: Seq<u8>)
    requires
        parse_entries(t) is Some,
    ensures
        tree_bytes(parse_entries(t).unwrap()) == t,
    decreases t.len(),
{
    let es = parse_entries(t).unwrap();
    if t.len() == 0 {
        assert(tree_bytes(es) =~= t);
    } else {
        lemma_first_found(t, SPACE);
        let sp = t.index_of_first(SPACE).unwrap();
        let after = t.subrange(sp + 1, t.len() as int);
        lemma_first_found(after, NUL);
        let nu = after.index_of_first(NUL).unwrap();
        let next = after.subrange(nu + 1 + DIGEST_LEN, after.len() as int);
        lemma_entries_write_back(next);
        let rest = parse_entries(next).unwrap();
        let e = EntryView {
            mode: t.subrange(0, sp),
            path: after.subrange(0, nu),
            id: after.subrange(nu + 1, nu + 1 + DIGEST_LEN),
        };
        assert(es =~= seq![e] + rest);
        assert(es[0] == e);
        assert(es.skip(1) =~= rest);
        assert(t =~= entry_bytes(e) + next);
    }
}

/// Whether `a` comes before `b` in byte-wise lexicographic order.
pub fn path_before(a: &[u8], b: &[u8]) -> (r: bool)
    ensures
        r == bytes_less(a@, b@),
{
    let mut i: usize = 0;
    while i < a.len() && i < b.len() && a[i] == b[i]
        invariant
            agree(a@, b@, i as int),
        decreases a@.len() - i,
    {
        i = i + 1;
    }
    let r = i < b.len() && (i == a.len() || a[i] < b[i]);
    proof {
        if r {
            assert(less_at(a@, b@, i as int));
        } else {
            assert forall|k: int| !less_at(a@, b@, k) by {
                if less_at(a@, b@, k) {
                    if k < i {
                        assert(a@[k] == b@[k]);
                    } else if k > i {
                        if i < a@.len() && i < b@.len() {
                            assert(a@[i as int] == b@[i as int]);
                        }
                    }
                }
            }
        }
    }
    r
}

/// Whether a mode is octal digits, at least one, the first not zero.
pub fn check_mode(m: &[u8]) -> (r: bool)
    ensures
        r == mode_ok(m@),
{
    if m.len() == 0 || m[0] == 48 {
        return false;
    }
    let mut i: usize = 0;
    while i < m.len()
        invariant
            0 <= i <= m@.len(),
            forall|j: int| 0 <= j < i ==> 48 <= #[trigger] m@[j] <= 55,
        decreases m@.len() - i,
    {
        if m[i] < 48 || m[i] > 55 {
            return false;
        }
        i = i + 1;
    }
    true
}

impl TreeEntry {
    /// Whether the entry can be written and read back.
    pub fn is_ok(&self) -> (r: bool)
        ensures
            r == entry_ok(self@),
    {
        if !check_mode(self.mode.as_slice()) {
            return false;
        }
        if self.id.len() != DIGEST_LEN {
            return false;
        }
        match find_byte(self.path.as_slice(), 0, NUL) {
            Some(k) => {
                proof {
                    assert(self.path@.subrange(0, self.path@.len() as int) =~= self.path@);
                    lemma_first_found(self.path@, NUL);
                }
                false
            },
            None => {
                proof {
                    assert(self.path@.subrange(0, self.path@.len() as int) =~= self.path@);
                    lemma_first_found(self.path@, NUL);
                }
                true
            },
        }
    }
}

/// Whether the entries are those of a well-formed tree.
pub fn check_tree(entries: &Vec<TreeEntry>) -> (r: bool)
    ensures
        r == tree_ok(entry_views(entries@)),
{
    let ghost es = entry_views(entries@);
    let mut i: usize = 0;
    while i < entries.len()
        invariant
            0 <= i <= entries@.len(),
            es == entry_views(entries@),
            forall|j: int| 0 <= j < i ==> entry_ok(#[trigger] es[j]),
            forall|j: int| 0 <= j < i - 1 ==> bytes_less(#[trigger] es[j].path, es[j + 1].path),
        decreases entries@.len() - i,
    {
        assert(es[i as int] == entries@[i as int]@);
        if !entries[i].is_ok() {
            return false;
        }
        if i > 0 {
            assert(es[i - 1] == entries@[i - 1]@);
            if !path_before(entries[i - 1].path.as_slice(), entries[i].path.as_slice()) {
                return false;
            }
        }
        i = i + 1;
    }
    true
}

/// Writes the payload of a tree, the entries in the order given.
pub fn serialize_tree(entries: &Vec<TreeEntry>) -> (out: Vec<u8>)
    ensures
        out@ == tree_bytes(entry_views(entries@)),
{
    let mut out: Vec<u8> = Vec::new();
    let mut i: usize = 0;
    let ghost es = entry_views(entries@);
    proof {
        assert(es.skip(0) =~= es);
        assert(out@ + tree_bytes(es) =~= tree_bytes(es));
    }
    while i < entries.len()
        invariant
            0 <= i <= entries@.len(),
            es == entry_views(entries@),
            out@ + tree_bytes(es.skip(i as int)) == tree_bytes(es),
        decreases entries@.len() - i,
    {
        let e = &entries[i];
        let ghost before = out@;
        push_all(&mut out, e.mode.as_slice());
        out.push(SPACE);
        push_all(&mut out, e.path.as_slice());
        out.push(NUL);
        push_all(&mut out, e.id.as_slice());
        proof {
            let rem = es.skip(i as int);
            assert(rem[0] == e@);
            assert(rem.skip(1) =~= es.skip(i + 1));
            assert(out@ =~= before + entry_bytes(e@));
            assert(out@ + tree_bytes(es.skip(i + 1)) =~= before + tree_bytes(rem));
        }
        i = i + 1;
    }
    proof {
        assert(es.skip(i as int).len() == 0);
        assert(out@ =~= out@ + tree_bytes(es.skip(i as int)));
    }
    out
}

/// Reads the entries of a payload, whatever their order and modes.
pub fn read_entries(t: &[u8]) -> (r: Option<Vec<TreeEntry>>)
    ensures
        match r {
            Some(es) => parse_entries(t@) == Some(entry_views(es@)),
            None => parse_entries(t@) is None,
        },
{
    let mut entries: Vec<TreeEntry> = Vec::new();
    let mut pos: usize = 0;
    let n = t.len();
    proof {
        assert(t@.subrange(0, n as int) =~= t@);
        let whole = parse_entries(t@);
        if whole is Some {
            assert(entry_views(entries@) + whole.unwrap() =~= whole.unwrap());
        }
    }
    while pos < n
        invariant
            0 <= pos <= n,
            n == t@.len(),
            parse_entries(t@) == (match parse_entries(t@.subrange(pos as int, n as int)) {
                Some(rest) => Some(entry_views(entries@) + rest),
                None => None,
            }),
        decreases n - pos,
    {
        let ghost tail = t@.subrange(pos as int, n as int);
        let ghost done = entry_views(entries@);
        let sp = match find_byte(t, pos, SPACE) {
            Some(sp) => sp,
            None => {
                return None;
            },
        };
        let ghost after = tail.subrange(sp - pos + 1, tail.len() as int);
        assert(after =~= t@.subrange(sp + 1, n as int));
        let nu = match find_byte(t, sp + 1, NUL) {
            Some(nu) => nu,
            None => {
                return None;
            },
        };
        if n - nu - 1 < DIGEST_LEN {
            return None;
        }
        let mode = copy_range(t, pos, sp);
        let path = copy_range(t, sp + 1, nu);
        let id = copy_range(t, nu + 1, nu + 1 + DIGEST_LEN);
        let e = TreeEntry { mode, path, id };
        proof {
            let k = nu - sp - 1;
            assert(tail.subrange(0, sp - pos) =~= e@.mode);
            assert(after.subrange(0, k) =~= e@.path);
            assert(after.subrange(k + 1, k + 1 + DIGEST_LEN) =~= e@.id);
            assert(after.subrange(k + 1 + DIGEST_LEN, after.len() as int) =~= t@.subrange(
                nu + 1 + DIGEST_LEN,
                n as int,
            ));
            let next = parse_entries(t@.subrange(nu + 1 + DIGEST_LEN, n as int));
            if next is Some {
                assert(done.push(e@) + next.unwrap() =~= done + (seq![e@] + next.unwrap()));
            }
            assert(entry_views(entries@.push(e)) =~= done.push(e@));
        }
        entries.push(e);
        pos = nu + 1 + DIGEST_LEN;
    }
    proof {
        assert(t@.subrange(pos as int, n as int).len() == 0);
        assert(entry_views(entries@) + Seq::<EntryView>::empty() =~= entry_views(entries@));
    }
    Some(entries)
}

/// Reads the payload of a tree; `None` unless it is a well-formed tree.
pub fn read_tree(t: &[u8]) -> (r: Option<Vec<TreeEntry>>)
    ensures
        match r {
            Some(es) => parse_tree(t@) == Some(entry_views(es@)),
            None => parse_tree(t@) is None,
        },
{
    match read_entries(t) {
        Some(es) => if check_tree(&es) {
            Some(es)
        } else {
            None
        },
        None => None,
    }
}

/// Every path comes strictly before every later one.
pub open spec fn strictly_sorted(es: Seq<EntryView>) -> bool {
    forall|i: int, j: int| 0 <= i < j < es.len() ==> bytes_less(es[i].path, es[j].path)
}

/// `e` is one of the first `n` entries of `s`.
pub open spec fn occurs(s: Seq<EntryView>, n: int, e: EntryView) -> bool {
    exists|k: int| 0 <= k < n && k < s.len() && s[k] == e
}

/// `a` and `b` hold the same entries, in whatever order.
pub open spec fn same_entries(a: Seq<EntryView>, b: Seq<EntryView>) -> bool {
    forall|e: EntryView|
        #![trigger occurs(a, a.len() as int, e)]
        #![trigger occurs(b, b.len() as int, e)]
        occurs(a, a.len() as int, e) == occurs(b, b.len() as int, e)
}

/// Two of the entries have the same path.
pub open spec fn has_duplicate_path(es: Seq<EntryView>) -> bool {
    exists|i: int, j: int| 0 <= i < j < es.len() && es[i].path == es[j].path
}

/// No byte string comes before itself.
pub proof fn lemma_less_irreflexive(a: Seq<u8>)
    ensures
        !bytes_less(a, a),
{
}

/// The order is transitive.
pub proof fn lemma_less_transitive(a: Seq<u8>, b: Seq<u8>, c: Seq<u8>)
    requires
        bytes_less(a, b),
        bytes_less(b, c),
    ensures
        bytes_less(a, c),
{
    let k1 = choose|k: int| less_at(a, b, k);
    let k2 = choose|k: int| less_at(b, c, k);
    let k = if k1 < k2 {
        k1
    } else {
        k2
    };
    assert forall|j: int| 0 <= j < k implies a[j] == c[j] by {
        assert(a[j] == b[j]);
        assert(b[j] == c[j]);
    }
    if k2 < k1 {
        assert(a[k2] == b[k2]);
    }
    assert(less_at(a, c, k));
}

/// Of two byte strings that agree up to `k`, one comes before the other, or
/// they are equal.
pub proof fn lemma_less_total(a: Seq<u8>, b: Seq<u8>, k: int)
    requires
        agree(a, b, k),
        !bytes_less(a, b),
        !bytes_less(b, a),
    ensures
        a == b,
    decreases a.len() - k,
{
    if k == a.len() {
        assert(!less_at(a, b, k));
        assert(a =~= b);
    } else {
        assert(!less_at(b, a, k));
        assert(!less_at(a, b, k));
        assert(agree(a, b, k + 1));
        lemma_less_total(a, b, k + 1);
    }
}

/// Ascending from each entry to the next is ascending throughout.
pub proof fn lemma_ascend_throughout(es: Seq<EntryView>, i: int, j: int)
    requires
        paths_ascend(es),
        0 <= i < j < es.len(),
    ensures
        bytes_less(es[i].path, es[j].path),
    decreases j - i,
{
    assert(bytes_less(es[j - 1].path, es[j - 1 + 1].path));
    if i + 1 < j {
        lemma_ascend_throughout(es, i, j - 1);
        lemma_less_transitive(es[i].path, es[j - 1].path, es[j].path);
    }
}

/// In an ascending sequence, whatever occurs before the last entry is not
/// the last entry.
proof fn lemma_not_last(x: Seq<EntryView>, i: int)
    requires
        paths_ascend(x),
        0 <= i < x.len() - 1,
    ensures
        x[i].path != x[x.len() - 1].path,
{
    lemma_ascend_throughout(x, i, x.len() - 1);
    lemma_less_irreflexive(x[i].path);
}

/// Of two ascending sequences with the same entries, what occurs in the one
/// without its last entry occurs in the other without its last entry.
proof fn lemma_rest_within(x: Seq<EntryView>, y: Seq<EntryView>, e: EntryView)
    requires
        paths_ascend(x),
        paths_ascend(y),
        same_entries(x, y),
        x.len() > 0,
        y.len() > 0,
        x[x.len() - 1] == y[y.len() - 1],
        occurs(x.drop_last(), x.len() - 1, e),
    ensures
        occurs(y.drop_last(), y.len() - 1, e),
{
    let xs = x.drop_last();
    let i = choose|i: int| 0 <= i < x.len() - 1 && i < xs.len() && xs[i] == e;
    assert(x[i] == e);
    assert(occurs(x, x.len() as int, e));
    assert(occurs(y, y.len() as int, e));
    let j = choose|j: int| 0 <= j < y.len() && j < y.len() && y[j] == e;
    lemma_not_last(x, i);
    assert(j != y.len() - 1);
    assert(y.drop_last()[j] == e);
}

/// Dropping the last entry of an ascending sequence leaves one.
proof fn lemma_rest_ascends(x: Seq<EntryView>)
    requires
        paths_ascend(x),
        x.len() > 0,
    ensures
        paths_ascend(x.drop_last()),
{
    let xs = x.drop_last();
    assert forall|i: int| 0 <= i < xs.len() - 1 implies bytes_less(
        #[trigger] xs[i].path,
        xs[i + 1].path,
    ) by {
        assert(bytes_less(x[i].path, x[i + 1].path));
    }
}

/// Two ascending sequences with the same entries end in the same entry.
proof fn lemma_same_last(x: Seq<EntryView>, y: Seq<EntryView>)
    requires
        paths_ascend(x),
        paths_ascend(y),
        same_entries(x, y),
        x.len() > 0,
    ensures
        y.len() > 0,
        x[x.len() - 1] == y[y.len() - 1],
{
    let n = x.len() - 1;
    assert(occurs(x, x.len() as int, x[n]));
    assert(occurs(y, y.len() as int, x[n]));
    let jx = choose|j: int| 0 <= j < y.len() && j < y.len() && y[j] == x[n];
    let m = y.len() - 1;
    assert(occurs(y, y.len() as int, y[m]));
    assert(occurs(x, x.len() as int, y[m]));
    let jy = choose|j: int| 0 <= j < x.len() && j < x.len() && x[j] == y[m];
    if jx < m {
        lemma_ascend_throughout(y, jx, m);
        if jy < n {
            lemma_ascend_throughout(x, jy, n);
            lemma_less_transitive(x[n].path, y[m].path, x[n].path);
        }
        lemma_less_irreflexive(x[n].path);
    }
}

/// The ascending order of a set of entries is unique: two ascending
/// sequences that hold the same entries are the same sequence.
pub proof fn lemma_ascending_unique(x: Seq<EntryView>, y: Seq<EntryView>)
    requires
        paths_ascend(x),
        paths_ascend(y),
        same_entries(x, y),
    ensures
        x == y,
    decreases x.len(),
{
    if x.len() == 0 {
        if y.len() > 0 {
            assert(occurs(y, y.len() as int, y[0]));
            assert(occurs(x, x.len() as int, y[0]));
        }
        assert(x =~= y);
    } else {
        lemma_same_last(x, y);
        let xs = x.drop_last();
        let ys = y.drop_last();
        assert forall|e: EntryView|
            #![trigger occurs(xs, xs.len() as int, e)]
            #![trigger occurs(ys, ys.len() as int, e)]
            occurs(xs, xs.len() as int, e) == occurs(ys, ys.len() as int, e) by {
            if occurs(xs, xs.len() as int, e) {
                lemma_rest_within(x, y, e);
            }
            if occurs(ys, ys.len() as int, e) {
                lemma_rest_within(y, x, e);
            }
        }
        lemma_rest_ascends(x);
        lemma_rest_ascends(y);
        lemma_ascending_unique(xs, ys);
        assert(x =~= xs.push(x[x.len() - 1]));
        assert(y =~= ys.push(y[y.len() - 1]));
    }
}

/// The bytes of a tree do not depend on the order in which its entries were
/// given: whenever `a` and `b` hold the same entries, their ascending orders
/// `x` and `y` are equal, and so are the payloads.
pub proof fn lemma_order_independent(
    a: Seq<EntryView>,
    b: Seq<EntryView>,
    x: Seq<EntryView>,
    y: Seq<EntryView>,
)
    requires
        same_entries(a, b),
        paths_ascend(x) && same_entries(a, x),
        paths_ascend(y) && same_entries(b, y),
    ensures
        x == y,
        tree_bytes(x) == tree_bytes(y),
{
    assert forall|e: EntryView|
        #![trigger occurs(x, x.len() as int, e)]
        #![trigger occurs(y, y.len() as int, e)]
        occurs(x, x.len() as int, e) == occurs(y, y.len() as int, e) by {
        assert(occurs(a, a.len() as int, e) == occurs(x, x.len() as int, e));
        assert(occurs(b, b.len() as int, e) == occurs(y, y.len() as int, e));
        assert(occurs(a, a.len() as int, e) == occurs(b, b.len() as int, e));
    }
    lemma_ascending_unique(x, y);
}

fn copy_entry(e: &TreeEntry) -> (out: TreeEntry)
    ensures
        out@ == e@,
{
    let mode = copy_range(e.mode.as_slice(), 0, e.mode.len());
    let path = copy_range(e.path.as_slice(), 0, e.path.len());
    let id = copy_range(e.id.as_slice(), 0, e.id.len());
    assert(mode@ =~= e.mode@ && path@ =~= e.path@ && id@ =~= e.id@);
    TreeEntry { mode, path, id }
}

/// Puts the entries of a tree into ascending order of path, whatever order
/// they come in. `None` where an entry is not valid or two entries share a
/// path; otherwise the entries of a well-formed tree, the same ones that
/// were given.
pub fn sort_entries(entries: &Vec<TreeEntry>) -> (r: Option<Vec<TreeEntry>>)
    ensures
        match r {
            Some(out) => {
                &&& tree_ok(entry_views(out@))
                &&& same_entries(entry_views(entries@), entry_views(out@))
                &&& out@.len() == entries@.len()
            },
            None => !entries_ok(entry_views(entries@)) || has_duplicate_path(
                entry_views(entries@),
            ),
        },
        r is Some <==> entries_ok(entry_views(entries@)) && !has_duplicate_path(
            entry_views(entries@),
        ),
{
    let ghost given = entry_views(entries@);
    let mut out: Vec<TreeEntry> = Vec::new();
    let mut i: usize = 0;
    while i < entries.len()
        invariant
            0 <= i <= entries@.len(),
            given == entry_views(entries@),
            out@.len() == i,
            entries_ok(entry_views(out@)),
            strictly_sorted(entry_views(out@)),
            forall|k: int| 0 <= k < i ==> entry_ok(#[trigger] given[k]),
            forall|a: int, b: int| 0 <= a < b < i ==> given[a].path != given[b].path,
            forall|e: EntryView|
                #![trigger occurs(given, i as int, e)]
                #![trigger occurs(entry_views(out@), out@.len() as int, e)]
                occurs(given, i as int, e) == occurs(entry_views(out@), out@.len() as int, e),
        decreases entries@.len() - i,
    {
        let ghost before = entry_views(out@);
        assert(given[i as int] == entries@[i as int]@);
        if !entries[i].is_ok() {
            return None;
        }
        let e = copy_entry(&entries[i]);
        let mut pos: usize = 0;
        while pos < out.len() && path_before(out[pos].path.as_slice(), e.path.as_slice())
            invariant
                0 <= pos <= out@.len(),
                before == entry_views(out@),
                forall|j: int| 0 <= j < pos ==> bytes_less(#[trigger] before[j].path, e@.path),
            decreases out@.len() - pos,
        {
            assert(before[pos as int] == out@[pos as int]@);
            pos = pos + 1;
        }
        if pos < out.len() {
            assert(before[pos as int] == out@[pos as int]@);
            if !path_before(e.path.as_slice(), out[pos].path.as_slice()) {
                proof {
                    lemma_less_total(e@.path, before[pos as int].path, 0);
                    assert(occurs(before, before.len() as int, before[pos as int]));
                    assert(occurs(given, i as int, before[pos as int]));
                    let k = choose|k: int|
                        0 <= k < i && k < given.len() && given[k] == before[pos as int];
                    assert(given[k].path == given[i as int].path);
                }
                return None;
            }
        }
        proof {
            assert forall|a: int| 0 <= a < i implies given[a].path != given[i as int].path by {
                assert(occurs(given, i as int, given[a]));
                lemma_path_is_new(before, pos as int, e@, given[a]);
            }
        }
        out.insert(pos, e);
        proof {
            let after = entry_views(out@);
            assert(after =~= before.insert(pos as int, e@));
            lemma_insert_sorted(before, pos as int, e@);
            lemma_insert_occurs(given, i as int, before, pos as int);
        }
        i = i + 1;
    }
    proof {
        let done = entry_views(out@);
        assert forall|j: int| 0 <= j < done.len() - 1 implies bytes_less(
            #[trigger] done[j].path,
            done[j + 1].path,
        ) by {}
        assert(entries_ok(given));
    }
    Some(out)
}

/// An entry that belongs between two neighbours of a sorted sequence has
/// the path of none of its entries.
proof fn lemma_path_is_new(before: Seq<EntryView>, pos: int, e: EntryView, x: EntryView)
    requires
        0 <= pos <= before.len(),
        strictly_sorted(before),
        forall|j: int| 0 <= j < pos ==> bytes_less(#[trigger] before[j].path, e.path),
        pos < before.len() ==> bytes_less(e.path, before[pos].path),
        occurs(before, before.len() as int, x),
    ensures
        x.path != e.path,
{
    let j = choose|j: int| 0 <= j < before.len() && j < before.len() && before[j] == x;
    lemma_less_irreflexive(e.path);
    if j > pos {
        assert(bytes_less(before[pos].path, before[j].path));
        lemma_less_transitive(e.path, before[pos].path, before[j].path);
    }
}

/// Inserting an entry between the smaller and the larger ones keeps a
/// sequence sorted and valid.
proof fn lemma_insert_sorted(before: Seq<EntryView>, pos: int, e: EntryView)
    requires
        0 <= pos <= before.len(),
        strictly_sorted(before),
        entries_ok(before),
        entry_ok(e),
        forall|j: int| 0 <= j < pos ==> bytes_less(#[trigger] before[j].path, e.path),
        pos < before.len() ==> bytes_less(e.path, before[pos].path),
    ensures
        strictly_sorted(before.insert(pos, e)),
        entries_ok(before.insert(pos, e)),
{
    let after = before.insert(pos, e);
    assert forall|a: int, b: int| 0 <= a < b < after.len() implies bytes_less(
        after[a].path,
        after[b].path,
    ) by {
        if b < pos {
            assert(after[a] == before[a] && after[b] == before[b]);
        } else if b == pos {
            assert(after[a] == before[a]);
        } else if a == pos {
            assert(after[b] == before[b - 1]);
            if b - 1 > pos {
                assert(bytes_less(before[pos].path, before[b - 1].path));
                lemma_less_transitive(e.path, before[pos].path, before[b - 1].path);
            }
        } else if a < pos {
            assert(after[a] == before[a] && after[b] == before[b - 1]);
            if a < b - 1 {
                assert(bytes_less(before[a].path, before[b - 1].path));
            }
        } else {
            assert(after[a] == before[a - 1] && after[b] == before[b - 1]);
            assert(bytes_less(before[a - 1].path, before[b - 1].path));
        }
    }
    assert forall|j: int| 0 <= j < after.len() implies entry_ok(#[trigger] after[j]) by {
        if j < pos {
            assert(after[j] == before[j]);
        } else if j > pos {
            assert(after[j] == before[j - 1]);
        }
    }
}

/// Where `before` holds the first `i` entries of `given`, `before` with
/// `given[i]` put in holds the first `i + 1`.
proof fn lemma_insert_occurs(given: Seq<EntryView>, i: int, before: Seq<EntryView>, pos: int)
    requires
        0 <= i < given.len(),
        0 <= pos <= before.len(),
        forall|e: EntryView|
            #![trigger occurs(given, i, e)]
            #![trigger occurs(before, before.len() as int, e)]
            occurs(given, i, e) == occurs(before, before.len() as int, e),
    ensures
        forall|e: EntryView|
            #![trigger occurs(given, i + 1, e)]
            #![trigger occurs(before.insert(pos, given[i]), before.len() as int + 1, e)]
            occurs(given, i + 1, e) == occurs(before.insert(pos, given[i]), before.len() as int + 1, e),
{
    let after = before.insert(pos, given[i]);
    assert forall|e: EntryView|
        #![trigger occurs(given, i + 1, e)]
        #![trigger occurs(after, before.len() as int + 1, e)]
        occurs(given, i + 1, e) == occurs(after, before.len() as int + 1, e) by {
        if occurs(given, i + 1, e) {
            let k = choose|k: int| 0 <= k < i + 1 && k < given.len() && given[k] == e;
            if k == i {
                assert(after[pos] == e);
            } else {
                assert(occurs(given, i, e));
                assert(occurs(before, before.len() as int, e));
                let j = choose|j: int| 0 <= j < before.len() && j < before.len() && before[j] == e;
                if j < pos {
                    assert(after[j] == e);
                } else {
                    assert(after[j + 1] == e);
                }
            }
            assert(occurs(after, before.len() as int + 1, e));
        }
        if occurs(after, before.len() as int + 1, e) {
            let j = choose|j: int| 0 <= j < before.len() as int + 1 && j < after.len() && after[j] == e;
            if j == pos {
                assert(given[i] == e);
            } else {
                let j0 = if j < pos {
                    j
                } else {
                    j - 1
                };
                assert(before[j0] == e);
                assert(occurs(before, before.len() as int, e));
                assert(occurs(given, i, e));
                let k = choose|k: int| 0 <= k < i && k < given.len() && given[k] == e;
                assert(given[k] == e);
            }
            assert(occurs(given, i + 1, e));
        }
    }
}

} // verus!
