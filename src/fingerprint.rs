//! Fingerprints of a command line and of an input tree.
//!
//! Both are 64-bit values of std's `DefaultHasher` (SipHash with fixed keys),
//! fed with a sequence of byte writes that depends on the command and the tree
//! alone. The hasher streams bytes, so every write is framed: each argument,
//! path and content block is preceded by its length as eight little-endian
//! bytes, each path is followed by a kind tag, and a file's content ends with
//! an empty frame. The bytes fed in thus decode back to the command or the
//! tree. The hash is not collision resistant: two different trees can, rarely,
//! share a fingerprint and then share a cache entry. That is the accepted price
//! of a fast hash.
use vstd::prelude::*;
use std::collections::hash_map::DefaultHasher;
use std::hash::Hasher;
use vstd::std_specs::hash::DefaultHasherAdditionalSpecFns;
use crate::address::CacheKey;

verus! {

/// File contents are hashed in blocks of this many bytes, whatever sizes
/// the reads that produced them had.
pub const CHUNK: usize = 125_000;

/// What the walk found at a path.
#[derive(Clone, Copy, Debug, PartialEq, Eq, Structural)]
pub enum EntryKind {
    Directory,
    File,
    /// Neither a regular file nor a directory: only its path counts.
    Other,
}

/// `c` cut into blocks of `CHUNK` bytes, the last one possibly shorter.
pub open spec fn chunks(c: Seq<u8>) -> Seq<Seq<u8>>
    decreases c.len(),
{
    if c.len() == 0 {
        Seq::empty()
    } else if c.len() <= CHUNK {
        seq![c]
    } else {
        seq![c.subrange(0, CHUNK as int)] + chunks(c.subrange(CHUNK as int, c.len() as int))
    }
}

/// `n` as eight little-endian bytes.
pub open spec fn le8(n: u64) -> Seq<u8> {
    seq![
        n as u8,
        (n >> 8u64) as u8,
        (n >> 16u64) as u8,
        (n >> 24u64) as u8,
        (n >> 32u64) as u8,
        (n >> 40u64) as u8,
        (n >> 48u64) as u8,
        (n >> 56u64) as u8,
    ]
}

/// Each piece preceded by its length, so that the bytes written decode back
/// to the pieces whatever they hold.
pub open spec fn framed(s: Seq<Seq<u8>>) -> Seq<Seq<u8>> {
    Seq::new(
        2 * s.len(),
        |i: int|
            if i % 2 == 0 {
                le8(s[i / 2].len() as u64)
            } else {
                s[i / 2]
            },
    )
}

/// The one-byte tag of an entry kind.
pub open spec fn kind_tag(k: EntryKind) -> u8 {
    match k {
        EntryKind::Directory => 0,
        EntryKind::File => 1,
        EntryKind::Other => 2,
    }
}

/// The writes for one walked entry: its framed path and its kind, then for
/// a file its content in framed blocks closed by an empty frame.
pub open spec fn entry_writes(path: Seq<u8>, kind: EntryKind, content: Seq<u8>) -> Seq<Seq<u8>> {
    if kind == EntryKind::File {
        framed(seq![path]) + seq![seq![kind_tag(kind)]] + (framed(chunks(content)) + seq![le8(0)])
    } else {
        framed(seq![path]) + seq![seq![kind_tag(kind)]]
    }
}

/// One entry of an input tree held in memory.
pub struct TreeEntry {
    pub path: Vec<u8>,
    pub kind: EntryKind,
    pub content: Vec<u8>,
}

/// The writes for a whole tree, entries in the order given.
pub open spec fn tree_writes(t: Seq<TreeEntry>) -> Seq<Seq<u8>>
    decreases t.len(),
{
    if t.len() == 0 {
        Seq::empty()
    } else {
        tree_writes(t.drop_last()) + entry_writes(t.last().path@, t.last().kind, t.last().content@)
    }
}

/// The writes for a command line: each argument in order, framed.
pub open spec fn command_writes(args: Seq<Vec<u8>>) -> Seq<Seq<u8>> {
    framed(args.map_values(|a: Vec<u8>| a@))
}

proof fn lemma_framed_append(a: Seq<Seq<u8>>, b: Seq<Seq<u8>>)
    ensures
        framed(a + b) == framed(a) + framed(b),
{
    assert forall|i: int| 0 <= i < framed(a + b).len() implies #[trigger] framed(a + b)[i] == (framed(a)
        + framed(b))[i] by {
        if i < 2 * a.len() {
            assert(i / 2 < a.len());
        } else {
            assert((i - 2 * a.len()) / 2 == i / 2 - a.len());
            assert((i - 2 * a.len()) % 2 == i % 2);
        }
    }
    assert(framed(a + b) =~= framed(a) + framed(b));
}

proof fn lemma_framed_single(x: Seq<u8>)
    ensures
        framed(seq![x]) == seq![le8(x.len() as u64), x],
{
    assert(framed(seq![x]) =~= seq![le8(x.len() as u64), x]);
}

proof fn lemma_framed_injective(a: Seq<Seq<u8>>, b: Seq<Seq<u8>>)
    requires
        framed(a) == framed(b),
    ensures
        a == b,
{
    assert(framed(a).len() == 2 * a.len() && framed(b).len() == 2 * b.len());
    assert(a.len() == b.len());
    assert forall|i: int| 0 <= i < a.len() implies a[i] == b[i] by {
        assert(framed(a)[2 * i + 1] == a[i]);
        assert(framed(b)[2 * i + 1] == b[i]);
    }
    assert(a =~= b);
}

fn le8_exec(n: u64) -> (r: Vec<u8>)
    ensures
        r@ == le8(n),
{
    let mut r: Vec<u8> = Vec::new();
    r.push(n as u8);
    r.push((n >> 8u64) as u8);
    r.push((n >> 16u64) as u8);
    r.push((n >> 24u64) as u8);
    r.push((n >> 32u64) as u8);
    r.push((n >> 40u64) as u8);
    r.push((n >> 48u64) as u8);
    r.push((n >> 56u64) as u8);
    assert(r@ =~= le8(n));
    r
}

/// Writes `bytes` framed by its length.
fn write_framed(h: &mut DefaultHasher, bytes: &[u8])
    ensures
        final(h)@ == old(h)@ + framed(seq![bytes@]),
{
    let len = le8_exec(bytes.len() as u64);
    h.write(len.as_slice());
    h.write(bytes);
    proof {
        lemma_framed_single(bytes@);
        assert(final(h)@ =~= old(h)@ + framed(seq![bytes@]));
    }
}

proof fn lemma_chunks_append(a: Seq<u8>, b: Seq<u8>)
    requires
        a.len() % (CHUNK as nat) == 0,
    ensures
        chunks(a + b) == chunks(a) + chunks(b),
    decreases a.len(),
{
    if a.len() == 0 {
        assert(a + b == b);
        assert(chunks(a) + chunks(b) == chunks(b));
    } else {
        let c = a + b;
        assert(a.len() >= CHUNK);
        if a.len() == CHUNK && b.len() == 0 {
            assert(c == a);
            assert(chunks(a) + chunks(b) == chunks(a));
        } else {
            assert(c.subrange(0, CHUNK as int) == a.subrange(0, CHUNK as int));
            let ra = a.subrange(CHUNK as int, a.len() as int);
            assert(c.subrange(CHUNK as int, c.len() as int) == ra + b);
            lemma_chunks_append(ra, b);
            if a.len() == CHUNK {
                assert(ra.len() == 0);
                assert(ra + b == b);
                assert(chunks(ra) == Seq::<Seq<u8>>::empty());
                assert(a.subrange(0, CHUNK as int) == a);
            }
            assert(chunks(a) + chunks(b) == seq![a.subrange(0, CHUNK as int)] + (chunks(ra) + chunks(b)));
        }
    }
}

/// Incremental fingerprint of an input tree, fed entry by entry in walk order.
/// Content may arrive in reads of any size: it is re-cut into `CHUNK` blocks.
pub struct Fingerprinter {
    hasher: DefaultHasher,
    pending: Vec<u8>,
    open: bool,
    closed: Ghost<Seq<Seq<u8>>>,
    consumed: Ghost<Seq<u8>>,
}

impl Fingerprinter {
    /// Writes of every entry added so far, the open file's content excluded.
    pub closed spec fn entries_written(&self) -> Seq<Seq<u8>> {
        self.closed@
    }

    /// Content fed to the open file so far.
    pub closed spec fn content(&self) -> Seq<u8> {
        self.consumed@ + self.pending@
    }

    /// Whether a file entry is waiting for its content.
    pub closed spec fn in_file(&self) -> bool {
        self.open
    }

    pub closed spec fn wf(&self) -> bool {
        &&& self.hasher@ == self.closed@ + framed(chunks(self.consumed@))
        &&& self.consumed@.len() % (CHUNK as nat) == 0
        &&& self.pending@.len() < CHUNK
        &&& !self.open ==> self.consumed@.len() == 0 && self.pending@.len() == 0
    }

    pub fn new() -> (r: Self)
        ensures
            r.wf(),
            r.entries_written() == Seq::<Seq<u8>>::empty(),
            !r.in_file(),
    {
        let r = Fingerprinter {
            hasher: DefaultHasher::new(),
            pending: Vec::new(),
            open: false,
            closed: Ghost(Seq::empty()),
            consumed: Ghost(Seq::empty()),
        };
        assert(r.hasher@ == r.closed@ + framed(chunks(r.consumed@)));
        r
    }

    /// Folds in the path of the next entry; for a file, its content follows
    /// through `add_content` and `end_file`.
    pub fn add_entry(&mut self, path: &[u8], kind: EntryKind)
        requires
            old(self).wf(),
            !old(self).in_file(),
        ensures
            final(self).wf(),
            final(self).in_file() == (kind == EntryKind::File),
            final(self).entries_written() == old(self).entries_written() + framed(seq![path@]) + seq![
                seq![kind_tag(kind)],
            ],
            final(self).content() == Seq::<u8>::empty(),
    {
        assert(chunks(self.consumed@) == Seq::<Seq<u8>>::empty());
        assert(framed(Seq::<Seq<u8>>::empty()) =~= Seq::<Seq<u8>>::empty());
        assert(self.hasher@ =~= self.closed@);
        write_framed(&mut self.hasher, path);
        let tag: u8 = match kind {
            EntryKind::Directory => 0,
            EntryKind::File => 1,
            EntryKind::Other => 2,
        };
        let mut t: Vec<u8> = Vec::new();
        t.push(tag);
        assert(t@ =~= seq![kind_tag(kind)]);
        self.hasher.write(t.as_slice());
        self.closed = Ghost(self.closed@ + framed(seq![path@]) + seq![seq![kind_tag(kind)]]);
        self.open = kind == EntryKind::File;
        assert(self.hasher@ =~= self.closed@ + framed(chunks(self.consumed@)));
        assert(self.consumed@ + self.pending@ == Seq::<u8>::empty());
    }

    /// Feeds the next bytes of the open file.
    pub fn add_content(&mut self, bytes: &[u8])
        requires
            old(self).wf(),
            old(self).in_file(),
        ensures
            final(self).wf(),
            final(self).in_file(),
            final(self).entries_written() == old(self).entries_written(),
            final(self).content() == old(self).content() + bytes@,
    {
        let mut i: usize = 0;
        while i < bytes.len()
            invariant
                self.wf(),
                self.in_file(),
                i <= bytes@.len(),
                self.closed@ == old(self).closed@,
                self.content() == old(self).content() + bytes@.subrange(0, i as int),
            decreases bytes.len() - i,
        {
            let ghost before = self.content();
            self.pending.push(bytes[i]);
            if self.pending.len() == CHUNK {
                let ghost h0 = self.hasher@;
                write_framed(&mut self.hasher, self.pending.as_slice());
                proof {
                    lemma_framed_append(chunks(self.consumed@), seq![self.pending@]);
                    vstd::arithmetic::div_mod::lemma_mod_add_multiples_vanish(
                        self.consumed@.len() as int,
                        CHUNK as int,
                    );
                    lemma_chunks_append(self.consumed@, self.pending@);
                    assert(chunks(self.pending@) == seq![self.pending@]);
                    assert(self.hasher@ =~= self.closed@ + framed(chunks(self.consumed@ + self.pending@)));
                }
                self.consumed = Ghost(self.consumed@ + self.pending@);
                self.pending.clear();
                assert(self.consumed@ + self.pending@ == self.consumed@);
            }
            i += 1;
            assert(bytes@.subrange(0, i as int) == bytes@.subrange(0, i - 1 as int).push(bytes@[i - 1]));
            assert(self.content() == before.push(bytes@[i - 1]));
        }
        assert(bytes@.subrange(0, bytes@.len() as int) == bytes@);
    }

    /// Closes the open file: its content counts as framed `chunks(content)`
    /// and an empty frame.
    pub fn end_file(&mut self)
        requires
            old(self).wf(),
            old(self).in_file(),
        ensures
            final(self).wf(),
            !final(self).in_file(),
            final(self).entries_written() == old(self).entries_written() + (framed(
                chunks(old(self).content()),
            ) + seq![le8(0)]),
    {
        proof {
            lemma_chunks_append(self.consumed@, self.pending@);
        }
        if self.pending.len() > 0 {
            write_framed(&mut self.hasher, self.pending.as_slice());
            assert(chunks(self.pending@) == seq![self.pending@]);
            proof {
                lemma_framed_append(chunks(self.consumed@), seq![self.pending@]);
            }
        } else {
            assert(self.consumed@ + self.pending@ == self.consumed@);
        }
        assert(self.hasher@ =~= self.closed@ + framed(chunks(self.consumed@ + self.pending@)));
        let z = le8_exec(0);
        self.hasher.write(z.as_slice());
        self.closed = Ghost(self.closed@ + (framed(chunks(self.consumed@ + self.pending@)) + seq![le8(0)]));
        self.consumed = Ghost(Seq::empty());
        self.pending.clear();
        self.open = false;
        assert(chunks(self.consumed@) == Seq::<Seq<u8>>::empty());
        assert(framed(Seq::<Seq<u8>>::empty()) =~= Seq::<Seq<u8>>::empty());
        assert(self.hasher@ =~= self.closed@ + framed(chunks(self.consumed@)));
    }

    /// The fingerprint of everything added.
    pub fn finish(&self) -> (r: u64)
        requires
            self.wf(),
            !self.in_file(),
        ensures
            r == DefaultHasher::spec_finish(self.entries_written()),
    {
        assert(chunks(self.consumed@) == Seq::<Seq<u8>>::empty());
        assert(framed(Seq::<Seq<u8>>::empty()) =~= Seq::<Seq<u8>>::empty());
        assert(self.hasher@ =~= self.closed@);
        self.hasher.finish()
    }
}

/// The fingerprint of a command line: its arguments hashed in order.
pub fn command_hash(args: &Vec<Vec<u8>>) -> (r: u64)
    ensures
        r == DefaultHasher::spec_finish(command_writes(args@)),
{
    let mut h = DefaultHasher::new();
    let mut i: usize = 0;
    assert(command_writes(args@.subrange(0, 0)) =~= Seq::<Seq<u8>>::empty());
    while i < args.len()
        invariant
            i <= args@.len(),
            h@ == command_writes(args@.subrange(0, i as int)),
        decreases args.len() - i,
    {
        write_framed(&mut h, args[i].as_slice());
        proof {
            let m0 = args@.subrange(0, i as int).map_values(|a: Vec<u8>| a@);
            let m1 = args@.subrange(0, i + 1 as int).map_values(|a: Vec<u8>| a@);
            assert(m1 =~= m0 + seq![args@[i as int]@]);
            lemma_framed_append(m0, seq![args@[i as int]@]);
        }
        i += 1;
    }
    assert(args@.subrange(0, args@.len() as int) == args@);
    h.finish()
}

/// The fingerprint of an input tree held in memory, entries in walk order.
pub fn input_hash(tree: &Vec<TreeEntry>) -> (r: u64)
    ensures
        r == DefaultHasher::spec_finish(tree_writes(tree@)),
{
    let mut f = Fingerprinter::new();
    let mut i: usize = 0;
    while i < tree.len()
        invariant
            i <= tree@.len(),
            f.wf(),
            !f.in_file(),
            f.entries_written() == tree_writes(tree@.subrange(0, i as int)),
        decreases tree.len() - i,
    {
        let e = &tree[i];
        let ghost w0 = f.entries_written();
        f.add_entry(e.path.as_slice(), e.kind);
        if e.kind == EntryKind::File {
            f.add_content(e.content.as_slice());
            assert(Seq::<u8>::empty() + e.content@ == e.content@);
            f.end_file();
        }
        i += 1;
        let ghost t = tree@.subrange(0, i as int);
        assert(t.drop_last() == tree@.subrange(0, i - 1 as int));
        assert(t.last() == tree@[i - 1]);
        assert(f.entries_written() =~= w0 + entry_writes(e.path@, e.kind, e.content@));
    }
    assert(tree@.subrange(0, tree@.len() as int) == tree@);
    f.finish()
}

/// The cache key of a command line run against an input tree listed in any
/// order: the tree is put in walk order first.
pub fn compute_key(command: &Vec<Vec<u8>>, tree: Vec<TreeEntry>) -> (r: CacheKey)
    ensures
        r.command_hash == DefaultHasher::spec_finish(command_writes(command@)),
        r.input_hash == DefaultHasher::spec_finish(tree_writes(walk_sorted(tree@))),
{
    let sorted = sort_walk(tree);
    CacheKey { command_hash: command_hash(command), input_hash: input_hash(&sorted) }
}

proof fn lemma_tree_writes_views(t1: Seq<TreeEntry>, t2: Seq<TreeEntry>)
    requires
        t1.len() == t2.len(),
        forall|i: int|
            0 <= i < t1.len() ==> (#[trigger] t1[i]).path@ == t2[i].path@ && t1[i].kind == t2[i].kind
                && t1[i].content@ == t2[i].content@,
    ensures
        tree_writes(t1) == tree_writes(t2),
    decreases t1.len(),
{
    if t1.len() > 0 {
        lemma_tree_writes_views(t1.drop_last(), t2.drop_last());
        assert(t1.last() == t1[t1.len() - 1]);
    }
}

/// Swapping two different arguments of a command line changes what is
/// hashed for it (the 64-bit hash itself can collide).
pub proof fn lemma_argument_order_matters(args: Seq<Vec<u8>>, i: int, j: int)
    requires
        0 <= i < args.len(),
        0 <= j < args.len(),
        args[i]@ != args[j]@,
    ensures
        command_writes(args.update(i, args[j]).update(j, args[i])) != command_writes(args),
{
    let swapped = args.update(i, args[j]).update(j, args[i]);
    assert(command_writes(swapped)[2 * j + 1] == args[i]@);
    assert(command_writes(args)[2 * j + 1] == args[j]@);
}

proof fn lemma_chunks_flatten(c: Seq<u8>)
    ensures
        chunks(c).flatten() == c,
    decreases c.len(),
{
    if c.len() > 0 {
        if c.len() <= CHUNK {
            let s = chunks(c);
            assert(s == seq![c]);
            assert(s.drop_first() == Seq::<Seq<u8>>::empty());
            assert(Seq::<Seq<u8>>::empty().flatten() == Seq::<u8>::empty());
            assert(s.flatten() == s.first() + s.drop_first().flatten());
            assert(c + Seq::<u8>::empty() == c);
        } else {
            let rest = c.subrange(CHUNK as int, c.len() as int);
            lemma_chunks_flatten(rest);
            let s = chunks(c);
            assert(s.first() == c.subrange(0, CHUNK as int));
            assert(s.drop_first() == chunks(rest));
            assert(s.flatten() == s.first() + s.drop_first().flatten());
            assert(c.subrange(0, CHUNK as int) + rest == c);
        }
    }
}

proof fn lemma_tree_writes_append(a: Seq<TreeEntry>, b: Seq<TreeEntry>)
    ensures
        tree_writes(a + b) == tree_writes(a) + tree_writes(b),
    decreases b.len(),
{
    if b.len() == 0 {
        assert(a + b == a);
        assert(tree_writes(a) + Seq::<Seq<u8>>::empty() == tree_writes(a));
    } else {
        lemma_tree_writes_append(a, b.drop_last());
        assert((a + b).drop_last() == a + b.drop_last());
        assert((a + b).last() == b.last());
    }
}

proof fn lemma_tree_writes_single(e: TreeEntry)
    ensures
        tree_writes(seq![e]) == entry_writes(e.path@, e.kind, e.content@),
{
    let t = seq![e];
    assert(t.drop_last() == Seq::<TreeEntry>::empty());
    assert(t.last() == e);
    assert(tree_writes(t.drop_last()) == Seq::<Seq<u8>>::empty());
    assert(Seq::<Seq<u8>>::empty() + entry_writes(e.path@, e.kind, e.content@) == entry_writes(
        e.path@,
        e.kind,
        e.content@,
    ));
}

/// The writes of a tree around its entry `i`.
proof fn lemma_tree_writes_split(t: Seq<TreeEntry>, i: int)
    requires
        0 <= i < t.len(),
    ensures
        tree_writes(t) == tree_writes(t.take(i)) + entry_writes(t[i].path@, t[i].kind, t[i].content@)
            + tree_writes(t.skip(i + 1)),
{
    assert(t == t.take(i) + seq![t[i]] + t.skip(i + 1));
    lemma_tree_writes_append(t.take(i) + seq![t[i]], t.skip(i + 1));
    lemma_tree_writes_append(t.take(i), seq![t[i]]);
    lemma_tree_writes_single(t[i]);
}

/// Two trees that agree everywhere but at entry `i`, where the path differs,
/// or both are files whose contents differ, are hashed from different writes.
/// So changing any byte of a file or renaming any entry changes what is
/// hashed (the 64-bit hash itself can collide).
pub proof fn lemma_tree_change_changes_writes(t1: Seq<TreeEntry>, t2: Seq<TreeEntry>, i: int)
    requires
        t1.len() == t2.len(),
        0 <= i < t1.len(),
        forall|j: int|
            0 <= j < t1.len() && j != i ==> (#[trigger] t1[j]).path@ == t2[j].path@ && t1[j].kind
                == t2[j].kind && t1[j].content@ == t2[j].content@,
        t1[i].path@ != t2[i].path@ || (t1[i].kind == EntryKind::File && t2[i].kind == EntryKind::File
            && t1[i].content@ != t2[i].content@),
    ensures
        tree_writes(t1) != tree_writes(t2),
{
    lemma_tree_writes_split(t1, i);
    lemma_tree_writes_split(t2, i);
    assert forall|j: int| 0 <= j < t1.take(i).len() implies (#[trigger] t1.take(i)[j]).path@ == t2.take(
        i,
    )[j].path@ && t1.take(i)[j].kind == t2.take(i)[j].kind && t1.take(i)[j].content@ == t2.take(
        i,
    )[j].content@ by {
        assert(t1.take(i)[j] == t1[j]);
        assert(t2.take(i)[j] == t2[j]);
    }
    assert forall|j: int| 0 <= j < t1.skip(i + 1).len() implies (#[trigger] t1.skip(i + 1)[j]).path@
        == t2.skip(i + 1)[j].path@ && t1.skip(i + 1)[j].kind == t2.skip(i + 1)[j].kind && t1.skip(
        i + 1,
    )[j].content@ == t2.skip(i + 1)[j].content@ by {
        assert(t1.skip(i + 1)[j] == t1[j + i + 1]);
        assert(t2.skip(i + 1)[j] == t2[j + i + 1]);
    }
    lemma_tree_writes_views(t1.take(i), t2.take(i));
    lemma_tree_writes_views(t1.skip(i + 1), t2.skip(i + 1));
    let pre = tree_writes(t1.take(i));
    let post = tree_writes(t1.skip(i + 1));
    let m1 = entry_writes(t1[i].path@, t1[i].kind, t1[i].content@);
    let m2 = entry_writes(t2[i].path@, t2[i].kind, t2[i].content@);
    if tree_writes(t1) == tree_writes(t2) {
        let w = tree_writes(t1);
        assert(tree_writes(t2.take(i)) == pre);
        assert(tree_writes(t2.skip(i + 1)) == post);
        assert(w == pre + m1 + post);
        assert(w == pre + m2 + post);
        assert(w.len() == pre.len() + m1.len() + post.len());
        assert(w.len() == pre.len() + m2.len() + post.len());
        assert(m1.len() == m2.len());
        assert(m1 == w.subrange(pre.len() as int, (pre.len() + m1.len()) as int));
        assert(m2 == w.subrange(pre.len() as int, (pre.len() + m2.len()) as int));
        lemma_framed_single(t1[i].path@);
        lemma_framed_single(t2[i].path@);
        assert(m1[1] == t1[i].path@);
        assert(m2[1] == t2[i].path@);
        if t1[i].path@ == t2[i].path@ {
            let f1 = framed(chunks(t1[i].content@));
            let f2 = framed(chunks(t2[i].content@));
            assert(m1.skip(3) =~= f1 + seq![le8(0)]);
            assert(m2.skip(3) =~= f2 + seq![le8(0)]);
            assert((f1 + seq![le8(0)]).drop_last() =~= f1);
            assert((f2 + seq![le8(0)]).drop_last() =~= f2);
            lemma_framed_injective(chunks(t1[i].content@), chunks(t2[i].content@));
            lemma_chunks_flatten(t1[i].content@);
            lemma_chunks_flatten(t2[i].content@);
        }
    }
}

/// Adding an entry anywhere in a tree adds at least one write, so the
/// writes differ; removing one is the same change seen the other way.
pub proof fn lemma_tree_insert_changes_writes(t: Seq<TreeEntry>, i: int, e: TreeEntry)
    requires
        0 <= i <= t.len(),
    ensures
        tree_writes(t.insert(i, e)).len() > tree_writes(t).len(),
        tree_writes(t.insert(i, e)) != tree_writes(t),
{
    let u = t.insert(i, e);
    assert(u == t.take(i) + seq![e] + t.skip(i));
    assert(t == t.take(i) + t.skip(i));
    lemma_tree_writes_append(t.take(i) + seq![e], t.skip(i));
    lemma_tree_writes_append(t.take(i), seq![e]);
    lemma_tree_writes_append(t.take(i), t.skip(i));
    lemma_tree_writes_single(e);
    assert(entry_writes(e.path@, e.kind, e.content@).len() >= 1);
}

/// Rank of a byte in path order: the separator comes before every other
/// byte, so that paths compare component by component.
pub open spec fn path_rank(b: u8) -> int {
    if b == 0x2f {
        0
    } else {
        b as int + 1
    }
}

/// Strict path order: lexicographic by `path_rank`, a proper prefix first.
/// For paths without repeated separators this is the order of their
/// component lists.
pub open spec fn path_lt(a: Seq<u8>, b: Seq<u8>) -> bool
    decreases a.len(),
{
    if b.len() == 0 {
        false
    } else if a.len() == 0 {
        true
    } else if path_rank(a[0]) != path_rank(b[0]) {
        path_rank(a[0]) < path_rank(b[0])
    } else {
        path_lt(a.drop_first(), b.drop_first())
    }
}

/// Entries in walk order: no entry's path comes before an earlier one's.
pub open spec fn walk_ordered(t: Seq<TreeEntry>) -> bool {
    forall|i: int, j: int| 0 <= i < j < t.len() ==> !path_lt(#[trigger] t[j].path@, #[trigger] t[i].path@)
}

/// Where `e` goes in `s`: after every entry whose path does not come after it.
pub open spec fn insert_pos(s: Seq<TreeEntry>, e: TreeEntry) -> int
    decreases s.len(),
{
    if s.len() == 0 {
        0
    } else if path_lt(e.path@, s.last().path@) {
        insert_pos(s.drop_last(), e)
    } else {
        s.len() as int
    }
}

/// The entries of `t` in walk order, by insertion from the back.
pub open spec fn walk_sorted(t: Seq<TreeEntry>) -> Seq<TreeEntry>
    decreases t.len(),
{
    if t.len() == 0 {
        Seq::empty()
    } else {
        let s = walk_sorted(t.drop_first());
        s.insert(insert_pos(s, t.first()), t.first())
    }
}

proof fn lemma_path_lt_irreflexive(a: Seq<u8>)
    ensures
        !path_lt(a, a),
    decreases a.len(),
{
    if a.len() > 0 {
        lemma_path_lt_irreflexive(a.drop_first());
    }
}

proof fn lemma_path_lt_total(a: Seq<u8>, b: Seq<u8>)
    requires
        a != b,
    ensures
        path_lt(a, b) || path_lt(b, a),
    decreases a.len(),
{
    if a.len() > 0 && b.len() > 0 && path_rank(a[0]) == path_rank(b[0]) {
        assert(a[0] == b[0]);
        if a.drop_first() == b.drop_first() {
            assert(a == seq![a[0]] + a.drop_first());
            assert(b == seq![b[0]] + b.drop_first());
        }
        lemma_path_lt_total(a.drop_first(), b.drop_first());
    } else if a.len() == 0 && b.len() == 0 {
        assert(a == b);
    }
}

proof fn lemma_path_lt_transitive(a: Seq<u8>, b: Seq<u8>, c: Seq<u8>)
    requires
        path_lt(a, b),
        path_lt(b, c),
    ensures
        path_lt(a, c),
    decreases a.len(),
{
    if a.len() > 0 && path_rank(a[0]) == path_rank(b[0]) && path_rank(b[0]) == path_rank(c[0]) {
        lemma_path_lt_transitive(a.drop_first(), b.drop_first(), c.drop_first());
    }
}

proof fn lemma_insert_pos(s: Seq<TreeEntry>, e: TreeEntry)
    requires
        walk_ordered(s),
    ensures
        0 <= insert_pos(s, e) <= s.len(),
        forall|j: int| 0 <= j < insert_pos(s, e) ==> !path_lt(e.path@, #[trigger] s[j].path@),
        forall|j: int| insert_pos(s, e) <= j < s.len() ==> path_lt(e.path@, #[trigger] s[j].path@),
    decreases s.len(),
{
    if s.len() > 0 {
        let t = s.drop_last();
        assert(walk_ordered(t)) by {
            assert forall|i: int, j: int| 0 <= i < j < t.len() implies !path_lt(
                #[trigger] t[j].path@,
                #[trigger] t[i].path@,
            ) by {
                assert(t[i] == s[i] && t[j] == s[j]);
            }
        }
        let last = s[s.len() - 1];
        if path_lt(e.path@, last.path@) {
            lemma_insert_pos(t, e);
            let p = insert_pos(t, e);
            assert forall|j: int| insert_pos(s, e) <= j < s.len() implies path_lt(
                e.path@,
                #[trigger] s[j].path@,
            ) by {
                if j < s.len() - 1 {
                    assert(s[j] == t[j]);
                }
            }
            assert forall|j: int| 0 <= j < insert_pos(s, e) implies !path_lt(
                e.path@,
                #[trigger] s[j].path@,
            ) by {
                assert(s[j] == t[j]);
            }
        } else {
            assert forall|j: int| 0 <= j < insert_pos(s, e) implies !path_lt(
                e.path@,
                #[trigger] s[j].path@,
            ) by {
                if j < s.len() - 1 {
                    // s[j] does not come after last, and e does not come before last
                    assert(!path_lt(last.path@, s[j].path@));
                    if path_lt(e.path@, s[j].path@) {
                        if s[j].path@ == last.path@ {
                        } else {
                            lemma_path_lt_total(s[j].path@, last.path@);
                            lemma_path_lt_transitive(e.path@, s[j].path@, last.path@);
                        }
                    }
                }
            }
        }
    }
}

#[verifier::spinoff_prover]
proof fn lemma_walk_sorted(t: Seq<TreeEntry>)
    ensures
        walk_ordered(walk_sorted(t)),
        walk_sorted(t).to_multiset() == t.to_multiset(),
        walk_sorted(t).len() == t.len(),
    decreases t.len(),
{
    broadcast use vstd::seq_lib::group_to_multiset_ensures;

    if t.len() > 0 {
        let s = walk_sorted(t.drop_first());
        let e = t.first();
        lemma_walk_sorted(t.drop_first());
        lemma_insert_pos(s, e);
        let p = insert_pos(s, e);
        let u = s.insert(p, e);
        assert(t.drop_first().to_multiset().insert(e) == t.to_multiset()) by {
            assert(t == seq![e] + t.drop_first());
            assert(t.drop_first().insert(0, e) == t);
        }
        assert forall|i: int, j: int| 0 <= i < j < u.len() implies !path_lt(
            #[trigger] u[j].path@,
            #[trigger] u[i].path@,
        ) by {
            if j < p {
                assert(u[i] == s[i] && u[j] == s[j]);
            } else if j == p {
                assert(u[i] == s[i] && u[j] == e);
            } else if i < p {
                assert(u[i] == s[i] && u[j] == s[j - 1]);
            } else if i == p {
                assert(u[i] == e && u[j] == s[j - 1]);
                assert(path_lt(e.path@, s[j - 1].path@));
                if path_lt(s[j - 1].path@, e.path@) {
                    lemma_path_lt_transitive(e.path@, s[j - 1].path@, e.path@);
                    lemma_path_lt_irreflexive(e.path@);
                }
            } else {
                assert(u[i] == s[i - 1] && u[j] == s[j - 1]);
            }
        }
    }
}

fn path_lt_exec(a: &Vec<u8>, b: &Vec<u8>) -> (r: bool)
    ensures
        r == path_lt(a@, b@),
{
    let mut i: usize = 0;
    assert(a@.skip(0) == a@ && b@.skip(0) == b@);
    while i < a.len() && i < b.len()
        invariant
            i <= a@.len(),
            i <= b@.len(),
            forall|k: int| 0 <= k < i ==> a@[k] == b@[k],
            path_lt(a@, b@) == path_lt(a@.skip(i as int), b@.skip(i as int)),
        decreases a.len() - i,
    {
        let x = a[i];
        let y = b[i];
        let rx: u16 = if x == 0x2f { 0 } else { x as u16 + 1 };
        let ry: u16 = if y == 0x2f { 0 } else { y as u16 + 1 };
        proof {
            let sa = a@.skip(i as int);
            let sb = b@.skip(i as int);
            assert(sa[0] == x && sb[0] == y);
            assert(sa.drop_first() == a@.skip(i + 1 as int));
            assert(sb.drop_first() == b@.skip(i + 1 as int));
        }
        if rx != ry {
            return rx < ry;
        }
        i += 1;
    }
    proof {
        let sa = a@.skip(i as int);
        let sb = b@.skip(i as int);
        assert(sa.len() == 0 || sb.len() == 0);
    }
    i == a.len() && i < b.len()
}

/// Puts a walk listing in walk order, whatever order it came in.
pub fn sort_walk(entries: Vec<TreeEntry>) -> (r: Vec<TreeEntry>)
    ensures
        r@ == walk_sorted(entries@),
        walk_ordered(r@),
        r@.to_multiset() == entries@.to_multiset(),
{
    let mut src = entries;
    let ghost all = src@;
    let mut out: Vec<TreeEntry> = Vec::new();
    assert(all.skip(all.len() as int) == Seq::<TreeEntry>::empty());
    while src.len() > 0
        invariant
            src@ == all.take(src@.len() as int),
            src@.len() <= all.len(),
            out@ == walk_sorted(all.skip(src@.len() as int)),
        decreases src.len(),
    {
        let ghost k = src@.len() - 1;
        let e = src.pop().unwrap();
        let ghost rest = all.skip(k + 1);
        proof {
            assert(e == all[k]);
            assert(src@ == all.take(k));
            assert(all.skip(k).drop_first() == rest);
            assert(all.skip(k).first() == e);
            lemma_walk_sorted(rest);
            lemma_insert_pos(out@, e);
        }
        let mut p: usize = out.len();
        assert(out@.take(p as int) == out@);
        while p > 0 && path_lt_exec(&e.path, &out[p - 1].path)
            invariant
                p <= out@.len(),
                insert_pos(out@, e) == insert_pos(out@.take(p as int), e),
            decreases p,
        {
            proof {
                let t = out@.take(p as int);
                assert(t.drop_last() == out@.take(p - 1));
                assert(t.last() == out@[p - 1]);
            }
            p -= 1;
        }
        proof {
            let t = out@.take(p as int);
            if p > 0 {
                assert(t.last() == out@[p - 1]);
            }
        }
        out.insert(p, e);
    }
    assert(all.skip(0) == all);
    proof {
        lemma_walk_sorted(all);
    }
    out
}

/// Two listings that agree entry by entry in path, kind and content.
pub open spec fn same_listing(t1: Seq<TreeEntry>, t2: Seq<TreeEntry>) -> bool {
    &&& t1.len() == t2.len()
    &&& forall|i: int|
        0 <= i < t1.len() ==> (#[trigger] t1[i]).path@ == t2[i].path@ && t1[i].kind == t2[i].kind
            && t1[i].content@ == t2[i].content@
}

proof fn lemma_insert_pos_bounds(s: Seq<TreeEntry>, e: TreeEntry)
    ensures
        0 <= insert_pos(s, e) <= s.len(),
    decreases s.len(),
{
    if s.len() > 0 {
        lemma_insert_pos_bounds(s.drop_last(), e);
    }
}

proof fn lemma_insert_pos_views(s1: Seq<TreeEntry>, s2: Seq<TreeEntry>, e1: TreeEntry, e2: TreeEntry)
    requires
        same_listing(s1, s2),
        e1.path@ == e2.path@,
    ensures
        insert_pos(s1, e1) == insert_pos(s2, e2),
    decreases s1.len(),
{
    if s1.len() > 0 {
        assert(same_listing(s1.drop_last(), s2.drop_last())) by {
            assert forall|i: int| 0 <= i < s1.drop_last().len() implies (#[trigger] s1.drop_last()[i]).path@
                == s2.drop_last()[i].path@ && s1.drop_last()[i].kind == s2.drop_last()[i].kind
                && s1.drop_last()[i].content@ == s2.drop_last()[i].content@ by {
                assert(s1.drop_last()[i] == s1[i] && s2.drop_last()[i] == s2[i]);
            }
        }
        assert(s1.last() == s1[s1.len() - 1]);
        lemma_insert_pos_views(s1.drop_last(), s2.drop_last(), e1, e2);
    }
}

proof fn lemma_walk_sorted_views(t1: Seq<TreeEntry>, t2: Seq<TreeEntry>)
    requires
        same_listing(t1, t2),
    ensures
        same_listing(walk_sorted(t1), walk_sorted(t2)),
    decreases t1.len(),
{
    if t1.len() > 0 {
        let d1 = t1.drop_first();
        let d2 = t2.drop_first();
        assert(same_listing(d1, d2)) by {
            assert forall|i: int| 0 <= i < d1.len() implies (#[trigger] d1[i]).path@ == d2[i].path@
                && d1[i].kind == d2[i].kind && d1[i].content@ == d2[i].content@ by {
                assert(d1[i] == t1[i + 1] && d2[i] == t2[i + 1]);
            }
        }
        lemma_walk_sorted_views(d1, d2);
        let s1 = walk_sorted(d1);
        let s2 = walk_sorted(d2);
        assert(t1.first() == t1[0] && t2.first() == t2[0]);
        lemma_insert_pos_views(s1, s2, t1.first(), t2.first());
        lemma_insert_pos_bounds(s1, t1.first());
        let p = insert_pos(s1, t1.first());
        let u1 = s1.insert(p, t1.first());
        let u2 = s2.insert(p, t2.first());
        assert forall|i: int| 0 <= i < u1.len() implies (#[trigger] u1[i]).path@ == u2[i].path@
            && u1[i].kind == u2[i].kind && u1[i].content@ == u2[i].content@ by {
            if i < p {
                assert(u1[i] == s1[i] && u2[i] == s2[i]);
            } else if i > p {
                assert(u1[i] == s1[i - 1] && u2[i] == s2[i - 1]);
            }
        }
    }
}

/// The same command line and an unchanged tree give the same key, whatever
/// order the tree was listed in each time it was walked.
pub proof fn lemma_compute_key_deterministic(
    c1: Seq<Vec<u8>>,
    c2: Seq<Vec<u8>>,
    t1: Seq<TreeEntry>,
    t2: Seq<TreeEntry>,
)
    requires
        c1.len() == c2.len(),
        forall|i: int| 0 <= i < c1.len() ==> (#[trigger] c1[i])@ == c2[i]@,
        same_listing(t1, t2),
    ensures
        DefaultHasher::spec_finish(command_writes(c1)) == DefaultHasher::spec_finish(command_writes(c2)),
        DefaultHasher::spec_finish(tree_writes(walk_sorted(t1))) == DefaultHasher::spec_finish(
            tree_writes(walk_sorted(t2)),
        ),
{
    assert(command_writes(c1) =~= command_writes(c2));
    lemma_walk_sorted_views(t1, t2);
    lemma_tree_writes_views(walk_sorted(t1), walk_sorted(t2));
}

/// Paths strictly increase along the listing, as a walk lists a tree.
pub open spec fn strictly_walk_ordered(t: Seq<TreeEntry>) -> bool {
    forall|i: int, j: int| 0 <= i < j < t.len() ==> path_lt(#[trigger] t[i].path@, #[trigger] t[j].path@)
}

proof fn lemma_insert_pos_front(s: Seq<TreeEntry>, e: TreeEntry)
    requires
        forall|j: int| 0 <= j < s.len() ==> path_lt(e.path@, #[trigger] s[j].path@),
    ensures
        insert_pos(s, e) == 0,
    decreases s.len(),
{
    if s.len() > 0 {
        assert(s.last() == s[s.len() - 1]);
        assert forall|j: int| 0 <= j < s.drop_last().len() implies path_lt(
            e.path@,
            #[trigger] s.drop_last()[j].path@,
        ) by {
            assert(s.drop_last()[j] == s[j]);
        }
        lemma_insert_pos_front(s.drop_last(), e);
    }
}

/// A listing already in strict walk order is left as it is.
proof fn lemma_walk_sorted_ordered(t: Seq<TreeEntry>)
    requires
        strictly_walk_ordered(t),
    ensures
        walk_sorted(t) == t,
    decreases t.len(),
{
    if t.len() > 0 {
        let d = t.drop_first();
        assert(strictly_walk_ordered(d)) by {
            assert forall|i: int, j: int| 0 <= i < j < d.len() implies path_lt(
                #[trigger] d[i].path@,
                #[trigger] d[j].path@,
            ) by {
                assert(d[i] == t[i + 1] && d[j] == t[j + 1]);
            }
        }
        lemma_walk_sorted_ordered(d);
        assert forall|j: int| 0 <= j < d.len() implies path_lt(t.first().path@, #[trigger] d[j].path@) by {
            assert(d[j] == t[j + 1]);
        }
        lemma_insert_pos_front(d, t.first());
        assert(d.insert(0, t.first()) == t);
    }
}

/// For two walks of a tree that list the same paths in the same strict
/// order, differing only at entry `i` in its path or in the content of a
/// file, `compute_key` hashes different writes.
pub proof fn lemma_compute_key_sensitive(t1: Seq<TreeEntry>, t2: Seq<TreeEntry>, i: int)
    requires
        strictly_walk_ordered(t1),
        strictly_walk_ordered(t2),
        t1.len() == t2.len(),
        0 <= i < t1.len(),
        forall|j: int|
            0 <= j < t1.len() && j != i ==> (#[trigger] t1[j]).path@ == t2[j].path@ && t1[j].kind
                == t2[j].kind && t1[j].content@ == t2[j].content@,
        t1[i].path@ != t2[i].path@ || (t1[i].kind == EntryKind::File && t2[i].kind == EntryKind::File
            && t1[i].content@ != t2[i].content@),
    ensures
        tree_writes(walk_sorted(t1)) != tree_writes(walk_sorted(t2)),
{
    lemma_walk_sorted_ordered(t1);
    lemma_walk_sorted_ordered(t2);
    lemma_tree_change_changes_writes(t1, t2, i);
}

proof fn lemma_sorted_unique(s1: Seq<TreeEntry>, s2: Seq<TreeEntry>)
    requires
        strictly_walk_ordered(s1),
        strictly_walk_ordered(s2),
        s1.to_multiset() == s2.to_multiset(),
    ensures
        s1 == s2,
    decreases s1.len(),
{
    broadcast use vstd::seq_lib::group_to_multiset_ensures;

    vstd::seq_lib::to_multiset_len(s1);
    vstd::seq_lib::to_multiset_len(s2);
    assert(s1.len() == s2.len());
    if s1.len() > 0 {
        let a = s1[0];
        let b = s2[0];
        assert(s1.contains(a));
        assert(s2.to_multiset().count(a) > 0);
        assert(s2.contains(a));
        let k = choose|k: int| 0 <= k < s2.len() && s2[k] == a;
        assert(s2.contains(b));
        assert(s1.to_multiset().count(b) > 0);
        assert(s1.contains(b));
        let m = choose|m: int| 0 <= m < s1.len() && s1[m] == b;
        if a != b {
            assert(k != 0 && m != 0);
            assert(path_lt(b.path@, a.path@));
            assert(path_lt(a.path@, b.path@));
            lemma_path_lt_transitive(a.path@, b.path@, a.path@);
            lemma_path_lt_irreflexive(a.path@);
        }
        let d1 = s1.drop_first();
        let d2 = s2.drop_first();
        assert(s1 == seq![a] + d1);
        assert(s2 == seq![a] + d2);
        assert(s1.remove(0) == d1);
        assert(s2.remove(0) == d2);
        assert(d1.to_multiset() == s1.to_multiset().remove(a));
        assert(d2.to_multiset() == s2.to_multiset().remove(a));
        assert forall|i: int, j: int| 0 <= i < j < d1.len() implies path_lt(
            #[trigger] d1[i].path@,
            #[trigger] d1[j].path@,
        ) by {
            assert(d1[i] == s1[i + 1] && d1[j] == s1[j + 1]);
        }
        assert forall|i: int, j: int| 0 <= i < j < d2.len() implies path_lt(
            #[trigger] d2[i].path@,
            #[trigger] d2[j].path@,
        ) by {
            assert(d2[i] == s2[i + 1] && d2[j] == s2[j + 1]);
        }
        lemma_sorted_unique(d1, d2);
    }
}

/// The same tree listed in any two orders gives the same key: two listings
/// holding the same entries, no two with one path, hash the same writes.
pub proof fn lemma_listing_order_irrelevant(t1: Seq<TreeEntry>, t2: Seq<TreeEntry>)
    requires
        t1.to_multiset() == t2.to_multiset(),
        forall|i: int, j: int| 0 <= i < j < t1.len() ==> (#[trigger] t1[i]).path@ != (#[trigger] t1[j]).path@,
    ensures
        walk_sorted(t1) == walk_sorted(t2),
        DefaultHasher::spec_finish(tree_writes(walk_sorted(t1))) == DefaultHasher::spec_finish(
            tree_writes(walk_sorted(t2)),
        ),
{
    broadcast use vstd::seq_lib::group_to_multiset_ensures;

    lemma_walk_sorted(t1);
    lemma_walk_sorted(t2);
    let s1 = walk_sorted(t1);
    let s2 = walk_sorted(t2);
    // the sorted listing has distinct paths too, so its order is strict
    assert forall|i: int, j: int| 0 <= i < j < s1.len() implies path_lt(
        #[trigger] s1[i].path@,
        #[trigger] s1[j].path@,
    ) by {
        lemma_distinct_paths_kept(t1, s1, i, j);
        lemma_path_lt_total(s1[i].path@, s1[j].path@);
    }
    assert forall|i: int, j: int| 0 <= i < j < s2.len() implies path_lt(
        #[trigger] s2[i].path@,
        #[trigger] s2[j].path@,
    ) by {
        lemma_distinct_paths_kept(t1, s2, i, j);
        lemma_path_lt_total(s2[i].path@, s2[j].path@);
    }
    lemma_sorted_unique(s1, s2);
}

/// In any listing with the same entries as `t`, two positions hold different
/// paths when `t`'s paths are distinct.
proof fn lemma_distinct_paths_kept(t: Seq<TreeEntry>, s: Seq<TreeEntry>, i: int, j: int)
    requires
        s.to_multiset() == t.to_multiset(),
        forall|a: int, b: int| 0 <= a < b < t.len() ==> (#[trigger] t[a]).path@ != (#[trigger] t[b]).path@,
        0 <= i < j < s.len(),
    ensures
        s[i].path@ != s[j].path@,
{
    broadcast use vstd::seq_lib::group_to_multiset_ensures;

    assert(s.contains(s[i]) && s.contains(s[j]));
    assert(t.to_multiset().count(s[i]) > 0 && t.to_multiset().count(s[j]) > 0);
    assert(t.contains(s[i]) && t.contains(s[j]));
    let a = choose|a: int| 0 <= a < t.len() && t[a] == s[i];
    let b = choose|b: int| 0 <= b < t.len() && t[b] == s[j];
    if s[i].path@ == s[j].path@ {
        if a != b {
            if a < b {
                assert(t[a].path@ != t[b].path@);
            } else {
                assert(t[b].path@ != t[a].path@);
            }
        } else {
            // one entry of `t` twice in `s`: its count in `s` is at least two
            assert(s[i] == s[j]);
            let r = s.remove(j);
            assert(r.to_multiset() == s.to_multiset().remove(s[j]));
            assert(r[i] == s[i]);
            assert(r.contains(s[i]));
            assert(r.to_multiset().count(s[i]) > 0);
            assert(s.to_multiset().count(s[i]) >= 2);
            lemma_count_distinct_paths(t, a);
        }
    }
}

/// With distinct paths, each entry occurs once in `t`.
proof fn lemma_count_distinct_paths(t: Seq<TreeEntry>, a: int)
    requires
        forall|x: int, y: int| 0 <= x < y < t.len() ==> (#[trigger] t[x]).path@ != (#[trigger] t[y]).path@,
        0 <= a < t.len(),
    ensures
        t.to_multiset().count(t[a]) == 1,
{
    broadcast use vstd::seq_lib::group_to_multiset_ensures;

    let e = t[a];
    let r = t.remove(a);
    assert(r.to_multiset() == t.to_multiset().remove(e));
    assert(!r.contains(e)) by {
        if r.contains(e) {
            let k = choose|k: int| 0 <= k < r.len() && r[k] == e;
            if k < a {
                assert(r[k] == t[k]);
                assert(t[k].path@ != t[a].path@);
            } else {
                assert(r[k] == t[k + 1]);
                assert(t[a].path@ != t[k + 1].path@);
            }
        }
    }
    assert(r.to_multiset().count(e) == 0);
    assert(t.contains(e));
}

/// Adding an entry to a walk, or removing one, changes what `compute_key`
/// hashes for it.
pub proof fn lemma_compute_key_insert_sensitive(t: Seq<TreeEntry>, i: int, e: TreeEntry)
    requires
        0 <= i <= t.len(),
        strictly_walk_ordered(t),
        strictly_walk_ordered(t.insert(i, e)),
    ensures
        tree_writes(walk_sorted(t.insert(i, e))) != tree_writes(walk_sorted(t)),
{
    lemma_walk_sorted_ordered(t);
    lemma_walk_sorted_ordered(t.insert(i, e));
    lemma_tree_insert_changes_writes(t, i, e);
}

} // verus!
