//! Cache keys and the on-disk addressing scheme
//! `<root>/<hex command_hash>/<hex input_hash>.tar.gz`.
use vstd::prelude::*;

verus! {

/// Identifies one cacheable unit of work.
#[derive(Clone, Copy, Debug, PartialEq, Eq, Hash, Structural)]
pub struct CacheKey {
    pub command_hash: u64,
    pub input_hash: u64,
}

pub const SLASH: u8 = 0x2f;

/// The suffix of every archive file name.
pub open spec fn archive_suffix() -> Seq<u8> {
    seq![0x2eu8, 0x74u8, 0x61u8, 0x72u8, 0x2eu8, 0x67u8, 0x7au8]
}

/// The lowercase hexadecimal digit for `d < 16`.
pub open spec fn hex_digit(d: nat) -> u8 {
    if d < 10 {
        (0x30 + d) as u8
    } else {
        (0x61 + d - 10) as u8
    }
}

pub open spec fn is_hex_digit(c: u8) -> bool {
    (0x30 <= c && c <= 0x39) || (0x61 <= c && c <= 0x66)
}

pub open spec fn digit_value(c: u8) -> nat {
    if c <= 0x39 {
        (c - 0x30) as nat
    } else {
        (c - 0x61 + 10) as nat
    }
}

/// `n` in lowercase hexadecimal, without leading zeros (`0` is one digit).
pub open spec fn hex_of(n: nat) -> Seq<u8>
    decreases n,
{
    if n < 16 {
        seq![hex_digit(n)]
    } else {
        hex_of(n / 16).push(hex_digit(n % 16))
    }
}

/// The number that a sequence of hexadecimal digits denotes.
pub open spec fn hex_value(s: Seq<u8>) -> nat
    decreases s.len(),
{
    if s.len() == 0 {
        0
    } else {
        hex_value(s.drop_last()) * 16 + digit_value(s.last())
    }
}

/// One to sixteen lowercase hexadecimal digits without leading zeros: the
/// spelling `hex_of` gives a 64-bit hash.
pub open spec fn is_hex_name(s: Seq<u8>) -> bool {
    &&& 1 <= s.len() <= 16
    &&& forall|i: int| 0 <= i < s.len() ==> is_hex_digit(#[trigger] s[i])
    &&& (s.len() == 1 || s[0] != 0x30)
}

/// `a` joined with `b` by one separator, as a path join does.
pub open spec fn join(a: Seq<u8>, b: Seq<u8>) -> Seq<u8> {
    if a.len() == 0 {
        b
    } else if a.last() == SLASH {
        a + b
    } else {
        a.push(SLASH) + b
    }
}

/// The directory that holds every archive of one command.
pub open spec fn shard_path(root: Seq<u8>, key: CacheKey) -> Seq<u8> {
    join(root, hex_of(key.command_hash as nat))
}

/// Where the archive of `key` lives under `root`.
pub open spec fn archive_path(root: Seq<u8>, key: CacheKey) -> Seq<u8> {
    join(shard_path(root, key), hex_of(key.input_hash as nat) + archive_suffix())
}

/// Index of the last separator in `s`, or -1.
pub open spec fn last_slash(s: Seq<u8>) -> int
    decreases s.len(),
{
    if s.len() == 0 {
        -1
    } else if s.last() == SLASH {
        s.len() - 1
    } else {
        last_slash(s.drop_last())
    }
}

/// The key that an archive path encodes in its last two components
/// (`.../<hex>/<hex>.tar.gz`), if it is one.
pub open spec fn parse_archive_path(p: Seq<u8>) -> Option<CacheKey> {
    let n = p.len() as int;
    if n < 7 || p.subrange(n - 7, n) != archive_suffix() {
        None
    } else {
        let stem = p.subrange(0, n - 7);
        let i = last_slash(stem);
        let name = stem.subrange(i + 1, stem.len() as int);
        let dir = stem.subrange(0, if i < 0 { 0 } else { i });
        let shard = dir.subrange(last_slash(dir) + 1, dir.len() as int);
        if i >= 0 && is_hex_name(shard) && is_hex_name(name) {
            Some(
                CacheKey {
                    command_hash: hex_value(shard) as u64,
                    input_hash: hex_value(name) as u64,
                },
            )
        } else {
            None
        }
    }
}

pub open spec fn pow16(k: nat) -> nat
    decreases k,
{
    if k == 0 {
        1
    } else {
        16 * pow16((k - 1) as nat)
    }
}

proof fn lemma_pow16_mono(a: nat, b: nat)
    requires
        a <= b,
    ensures
        pow16(a) <= pow16(b),
    decreases b,
{
    if a < b {
        lemma_pow16_mono(a, (b - 1) as nat);
    }
}

proof fn lemma_pow16_16()
    ensures
        pow16(16) == 0x1_0000_0000_0000_0000nat,
{
    reveal_with_fuel(pow16, 17);
}

/// Digits of `hex_of(n)` are lowercase hex, at least one, and fit the width
/// that `n` needs.
proof fn lemma_hex_of_shape(n: nat, k: nat)
    requires
        1 <= k,
        n < pow16(k),
    ensures
        1 <= hex_of(n).len() <= k,
        forall|i: int| 0 <= i < hex_of(n).len() ==> is_hex_digit(#[trigger] hex_of(n)[i]),
    decreases n,
{
    if n >= 16 {
        assert(k >= 2) by {
            if k == 1 {
                reveal_with_fuel(pow16, 2);
            }
        }
        assert(n / 16 < pow16((k - 1) as nat)) by {
            assert(pow16(k) == 16 * pow16((k - 1) as nat));
        }
        lemma_hex_of_shape(n / 16, (k - 1) as nat);
        let s = hex_of(n / 16);
        assert forall|i: int| 0 <= i < hex_of(n).len() implies is_hex_digit(#[trigger] hex_of(n)[i]) by {
            if i < s.len() {
                assert(hex_of(n)[i] == s[i]);
            }
        }
    }
}

/// Reading back the hexadecimal spelling of `n` gives `n`.
pub proof fn lemma_hex_round_trip(n: nat)
    ensures
        hex_value(hex_of(n)) == n,
    decreases n,
{
    if n >= 16 {
        lemma_hex_round_trip(n / 16);
        assert(hex_of(n).drop_last() == hex_of(n / 16));
        assert(hex_of(n).last() == hex_digit(n % 16));
        assert(digit_value(hex_digit(n % 16)) == n % 16);
        assert(hex_value(hex_of(n)) == hex_value(hex_of(n / 16)) * 16 + n % 16);
        assert(n == (n / 16) * 16 + n % 16) by (nonlinear_arith);
    } else {
        assert(hex_of(n).drop_last() == Seq::<u8>::empty());
        assert(hex_of(n).last() == hex_digit(n));
        assert(digit_value(hex_digit(n)) == n);
        assert(hex_value(hex_of(n)) == hex_value(Seq::<u8>::empty()) * 16 + n);
    }
}

proof fn lemma_hex_of_leading(n: nat)
    ensures
        hex_of(n).len() >= 1,
        n >= 1 ==> hex_of(n)[0] != 0x30,
    decreases n,
{
    if n >= 16 {
        lemma_hex_of_leading(n / 16);
        assert(hex_of(n)[0] == hex_of(n / 16)[0]);
    }
}

/// The spelling of a 64-bit value is a valid hex name.
proof fn lemma_hex_of_u64(n: u64)
    ensures
        is_hex_name(hex_of(n as nat)),
{
    lemma_pow16_16();
    lemma_hex_of_shape(n as nat, 16);
    lemma_hex_of_leading(n as nat);
    if n == 0 {
        assert(hex_of(0) == seq![hex_digit(0)]);
    }
}

proof fn lemma_hex_value_positive(s: Seq<u8>)
    requires
        s.len() >= 1,
        forall|i: int| 0 <= i < s.len() ==> is_hex_digit(#[trigger] s[i]),
        s[0] != 0x30,
    ensures
        hex_value(s) >= 1,
    decreases s.len(),
{
    if s.len() > 1 {
        let t = s.drop_last();
        assert(t[0] == s[0]);
        assert forall|i: int| 0 <= i < t.len() implies is_hex_digit(#[trigger] t[i]) by {
            assert(t[i] == s[i]);
        }
        lemma_hex_value_positive(t);
    } else {
        assert(s.drop_last().len() == 0);
    }
}

/// A hex name is the spelling of the value it denotes.
pub proof fn lemma_hex_name_canonical(s: Seq<u8>)
    requires
        s.len() >= 1,
        forall|i: int| 0 <= i < s.len() ==> is_hex_digit(#[trigger] s[i]),
        s.len() == 1 || s[0] != 0x30,
    ensures
        hex_of(hex_value(s)) == s,
    decreases s.len(),
{
    let d = digit_value(s.last());
    assert(is_hex_digit(s[s.len() - 1]));
    assert(d < 16 && hex_digit(d) == s.last());
    if s.len() == 1 {
        assert(s.drop_last().len() == 0);
        assert(hex_value(s.drop_last()) == 0);
        assert(hex_value(s) == d);
        assert(hex_of(d) == seq![hex_digit(d)]);
        assert(s == seq![s.last()]);
    } else {
        let t = s.drop_last();
        assert(t[0] == s[0]);
        assert forall|i: int| 0 <= i < t.len() implies is_hex_digit(#[trigger] t[i]) by {
            assert(t[i] == s[i]);
        }
        lemma_hex_value_positive(t);
        lemma_hex_name_canonical(t);
        let n = hex_value(s);
        assert(n == hex_value(t) * 16 + d);
        assert(n / 16 == hex_value(t) && n % 16 == d) by (nonlinear_arith)
            requires n == hex_value(t) * 16 + d, d < 16;
        assert(n >= 16);
        assert(hex_of(n) == t.push(s.last()));
        assert(t.push(s.last()) == s);
    }
}

proof fn lemma_last_slash_bounds(s: Seq<u8>)
    ensures
        -1 <= last_slash(s) < s.len(),
        last_slash(s) >= 0 ==> s[last_slash(s)] == SLASH,
        forall|j: int| last_slash(s) < j < s.len() ==> #[trigger] s[j] != SLASH,
    decreases s.len(),
{
    if s.len() > 0 && s.last() != SLASH {
        lemma_last_slash_bounds(s.drop_last());
        assert forall|j: int| last_slash(s) < j < s.len() implies #[trigger] s[j] != SLASH by {
            if j < s.len() - 1 {
                assert(s[j] == s.drop_last()[j]);
            }
        }
    }
}

/// A suffix without separators does not move the last separator.
proof fn lemma_last_slash_append(a: Seq<u8>, b: Seq<u8>)
    requires
        forall|i: int| 0 <= i < b.len() ==> #[trigger] b[i] != SLASH,
    ensures
        last_slash(a + b) == last_slash(a),
    decreases b.len(),
{
    if b.len() > 0 {
        assert((a + b).last() == b.last());
        assert((a + b).drop_last() == a + b.drop_last());
        lemma_last_slash_append(a, b.drop_last());
    } else {
        assert(a + b == a);
    }
}

/// The address of a key parses back to that key, whatever the root.
pub proof fn lemma_archive_path_round_trip(root: Seq<u8>, key: CacheKey)
    ensures
        parse_archive_path(archive_path(root, key)) == Some(key),
{
    let c = hex_of(key.command_hash as nat);
    let h = hex_of(key.input_hash as nat);
    lemma_hex_of_u64(key.command_hash);
    lemma_hex_of_u64(key.input_hash);
    lemma_hex_round_trip(key.command_hash as nat);
    lemma_hex_round_trip(key.input_hash as nat);
    assert forall|i: int| 0 <= i < c.len() implies #[trigger] c[i] != SLASH by {
        assert(is_hex_digit(c[i]));
    }
    assert forall|i: int| 0 <= i < h.len() implies #[trigger] h[i] != SLASH by {
        assert(is_hex_digit(h[i]));
    }
    // the shard directory with a trailing separator
    let d = if root.len() == 0 {
        c
    } else if root.last() == SLASH {
        root + c
    } else {
        root.push(SLASH) + c
    };
    // the part of the root that stays before the shard, ending in a separator or empty
    let r = if root.len() == 0 {
        Seq::<u8>::empty()
    } else if root.last() == SLASH {
        root
    } else {
        root.push(SLASH)
    };
    assert(d == r + c);
    assert(r.len() == 0 ==> last_slash(r) == -1);
    assert(r.len() > 0 ==> last_slash(r) == r.len() - 1);
    lemma_last_slash_append(r, c);
    let p = archive_path(root, key);
    assert(p == d.push(SLASH) + h + archive_suffix());
    let n = p.len() as int;
    let stem = p.subrange(0, n - 7);
    assert(p.subrange(n - 7, n) == archive_suffix());
    assert(stem == d.push(SLASH) + h);
    lemma_last_slash_append(d.push(SLASH), h);
    assert(last_slash(d.push(SLASH)) == d.len());
    assert(stem.subrange(d.len() + 1 as int, stem.len() as int) == h);
    assert(stem.subrange(0, d.len() as int) == d);
    assert(d.subrange(last_slash(d) + 1, d.len() as int) == c);
}

fn hex_digit_exec(d: u64) -> (c: u8)
    requires
        d < 16,
    ensures
        c == hex_digit(d as nat),
{
    if d < 10 {
        0x30 + d as u8
    } else {
        0x61 + (d - 10) as u8
    }
}

/// Appends the lowercase hexadecimal spelling of `n`.
fn push_hex(out: &mut Vec<u8>, n: u64)
    ensures
        final(out)@ == old(out)@ + hex_of(n as nat),
    decreases n,
{
    if n >= 16 {
        push_hex(out, n / 16);
    }
    let c = hex_digit_exec(n % 16);
    out.push(c);
    proof {
        if n < 16 {
            assert(hex_of(n as nat) == seq![c]);
        }
    }
}

/// Appends `part` to the path `out` with one separator between them.
fn push_component(out: &mut Vec<u8>, part: &[u8])
    ensures
        final(out)@ == join(old(out)@, part@),
{
    if out.len() > 0 && out[out.len() - 1] != SLASH {
        out.push(SLASH);
    }
    let ghost base = out@;
    let mut i: usize = 0;
    while i < part.len()
        invariant
            i <= part.len(),
            out@ == base + part@.subrange(0, i as int),
        decreases part.len() - i,
    {
        out.push(part[i]);
        i += 1;
        assert(part@.subrange(0, i as int) == part@.subrange(0, i - 1 as int).push(part@[i - 1]));
    }
    assert(part@.subrange(0, part@.len() as int) == part@);
    assert(old(out)@.len() == 0 ==> base + part@ == part@);
}

/// Where the archive of `key` lives under the cache root `root`.
pub fn key_to_path(root: &[u8], key: &CacheKey) -> (r: Vec<u8>)
    ensures
        r@ == archive_path(root@, *key),
{
    let mut out: Vec<u8> = Vec::new();
    push_component(&mut out, root);
    assert(out@ == root@);
    let mut shard: Vec<u8> = Vec::new();
    push_hex(&mut shard, key.command_hash);
    assert(shard@ == hex_of(key.command_hash as nat));
    push_component(&mut out, shard.as_slice());
    let mut name: Vec<u8> = Vec::new();
    push_hex(&mut name, key.input_hash);
    name.push(0x2e);
    name.push(0x74);
    name.push(0x61);
    name.push(0x72);
    name.push(0x2e);
    name.push(0x67);
    name.push(0x7a);
    assert(name@ == hex_of(key.input_hash as nat) + archive_suffix());
    push_component(&mut out, name.as_slice());
    out
}

/// Index of the last separator in `s[..end]`, or `None`.
fn find_last_slash(s: &[u8], end: usize) -> (r: Option<usize>)
    requires
        end <= s.len(),
    ensures
        match r {
            Some(i) => i as int == last_slash(s@.subrange(0, end as int)),
            None => last_slash(s@.subrange(0, end as int)) == -1,
        },
{
    let mut j: usize = end;
    while j > 0
        invariant
            j <= end <= s.len(),
            last_slash(s@.subrange(0, end as int)) == last_slash(s@.subrange(0, j as int)),
        decreases j,
    {
        let ghost t = s@.subrange(0, j as int);
        if s[j - 1] == SLASH {
            assert(t.last() == SLASH);
            return Some(j - 1);
        }
        assert(t.drop_last() == s@.subrange(0, j - 1 as int));
        j -= 1;
    }
    None
}

/// The value of the hex name `s[lo..hi]`, if it is one.
fn parse_hex_name(s: &[u8], lo: usize, hi: usize) -> (r: Option<u64>)
    requires
        lo <= hi <= s.len(),
    ensures
        match r {
            Some(v) => is_hex_name(s@.subrange(lo as int, hi as int)) && v as nat == hex_value(
                s@.subrange(lo as int, hi as int),
            ),
            None => !is_hex_name(s@.subrange(lo as int, hi as int)),
        },
{
    let ghost w = s@.subrange(lo as int, hi as int);
    if hi - lo < 1 || hi - lo > 16 {
        return None;
    }
    if hi - lo > 1 && s[lo] == 0x30 {
        assert(w[0] == 0x30);
        return None;
    }
    proof {
        lemma_pow16_16();
        lemma_pow16_mono((hi - lo) as nat, 16);
    }
    let mut v: u64 = 0;
    let mut i: usize = lo;
    while i < hi
        invariant
            lo <= i <= hi <= s.len(),
            hi - lo <= 16,
            pow16((hi - lo) as nat) <= 0x1_0000_0000_0000_0000nat,
            w == s@.subrange(lo as int, hi as int),
            forall|k: int| 0 <= k < i - lo ==> is_hex_digit(#[trigger] w[k]),
            v as nat == hex_value(s@.subrange(lo as int, i as int)),
            (v as nat) < pow16((i - lo) as nat),
        decreases hi - i,
    {
        let c = s[i];
        if !((0x30 <= c && c <= 0x39) || (0x61 <= c && c <= 0x66)) {
            assert(w[i - lo] == c);
            return None;
        }
        let d: u64 = if c <= 0x39 {
            (c - 0x30) as u64
        } else {
            (c - 0x61 + 10) as u64
        };
        let ghost prev = s@.subrange(lo as int, i as int);
        let ghost next = s@.subrange(lo as int, i + 1 as int);
        proof {
            assert(next.drop_last() == prev);
            assert(next.last() == c);
            lemma_pow16_mono((i + 1 - lo) as nat, (hi - lo) as nat);
            assert(pow16((i + 1 - lo) as nat) == 16 * pow16((i - lo) as nat));
            assert((v as nat) * 16 + (d as nat) < 16 * pow16((i - lo) as nat)) by (nonlinear_arith)
                requires
                    (v as nat) < pow16((i - lo) as nat),
                    d < 16,
            ;
        }
        v = v * 16 + d;
        i += 1;
        assert(w[i - 1 - lo] == c);
    }
    assert(s@.subrange(lo as int, hi as int) == w);
    assert(w.len() == 1 || w[0] != 0x30);
    Some(v)
}

/// `p` is where some cache root keeps the archive of `k`.
pub open spec fn is_address_of(p: Seq<u8>, k: CacheKey) -> bool {
    exists|root: Seq<u8>| #[trigger] archive_path(root, k) == p
}

proof fn lemma_parsed_path_is_address(p: Seq<u8>, j: int, i: int, e: int, k: CacheKey)
    requires
        0 <= j <= i < e,
        e + 7 == p.len(),
        p.subrange(e, p.len() as int) == archive_suffix(),
        j == 0 || p[j - 1] == SLASH,
        p[i] == SLASH,
        is_hex_name(p.subrange(j, i)),
        is_hex_name(p.subrange(i + 1, e)),
        k.command_hash as nat == hex_value(p.subrange(j, i)),
        k.input_hash as nat == hex_value(p.subrange(i + 1, e)),
    ensures
        archive_path(p.subrange(0, j), k) == p,
{
    let sh = p.subrange(j, i);
    let nm = p.subrange(i + 1, e);
    let root = p.subrange(0, j);
    lemma_hex_name_canonical(sh);
    lemma_hex_name_canonical(nm);
    let d = p.subrange(0, i);
    if root.len() == 0 {
        assert(sh == d);
    } else {
        assert(root.last() == SLASH);
        assert(root + sh == d);
    }
    assert(join(root, sh) == d);
    assert(d.last() == sh.last());
    assert(is_hex_digit(sh[sh.len() - 1]));
    assert(join(d, nm + archive_suffix()) == d.push(SLASH) + (nm + archive_suffix()));
    assert(d.push(SLASH) + (nm + archive_suffix()) =~= p);
}

/// The key that an archive path encodes, if its last two components are
/// `<hex>/<hex>.tar.gz`.
pub fn parse_entry_path(p: &[u8]) -> (r: Option<CacheKey>)
    ensures
        r == parse_archive_path(p@),
        r is Some ==> is_address_of(p@, r->Some_0),
{
    let n = p.len();
    if n < 7 {
        return None;
    }
    let mut k: usize = 0;
    while k < 7
        invariant
            n == p.len() >= 7,
            k <= 7,
            forall|t: int| 0 <= t < k ==> p@[n - 7 + t] == #[trigger] archive_suffix()[t],
        decreases 7 - k,
    {
        let want: u8 = if k == 0 || k == 4 {
            0x2e
        } else if k == 1 {
            0x74
        } else if k == 2 {
            0x61
        } else if k == 3 {
            0x72
        } else if k == 5 {
            0x67
        } else {
            0x7a
        };
        if p[n - 7 + k] != want {
            assert(p@.subrange(n - 7, n as int)[k as int] != archive_suffix()[k as int]);
            return None;
        }
        k += 1;
    }
    assert(p@.subrange(n - 7, n as int) == archive_suffix());
    let ghost stem = p@.subrange(0, n - 7);
    let e = n - 7;
    let i = match find_last_slash(p, e) {
        Some(i) => i,
        None => {
            return None;
        },
    };
    proof {
        lemma_last_slash_bounds(stem);
    }
    let ghost dir = stem.subrange(0, i as int);
    assert(dir == p@.subrange(0, i as int));
    proof {
        lemma_last_slash_bounds(dir);
    }
    let j: usize = match find_last_slash(p, i) {
        Some(j) => j + 1,
        None => 0,
    };
    assert(dir.subrange(last_slash(dir) + 1, dir.len() as int) == p@.subrange(j as int, i as int));
    assert(stem.subrange(i + 1, stem.len() as int) == p@.subrange(i + 1, e as int));
    let shard = parse_hex_name(p, j, i);
    let name = parse_hex_name(p, i + 1, e);
    match (shard, name) {
        (Some(c), Some(h)) => {
            let k = CacheKey { command_hash: c, input_hash: h };
            proof {
                assert(stem[i as int] == SLASH);
                assert(p@[i as int] == SLASH);
                if j > 0 {
                    assert(dir[j - 1] == SLASH);
                    assert(p@[j - 1] == SLASH);
                }
                lemma_parsed_path_is_address(p@, j as int, i as int, e as int, k);
                assert(archive_path(p@.subrange(0, j as int), k) == p@);
                assert(is_address_of(p@, k));
            }
            Some(k)
        },
        _ => None,
    }
}

} // verus!
