use vstd::prelude::*;
use vstd::slice::slice_subrange;
use vstd::utf8::*;
use xxhash_rust::xxh3::Xxh3;
use crate::state::{State, keys_sorted, lemma_set_entry, lookup, set_entry};
use crate::text::{concat, lemma_lex_transitive, lemma_path_order, path_before, path_lt, str_eq};

verus! {

/// The streaming hasher `xxhash_rust::xxh3::Xxh3`, carried as an opaque value;
/// what it has been fed is named by `xxh3_fed`.
#[verifier::external_type_specification]
#[verifier::external_body]
pub struct ExXxh3(Xxh3);

/// The bytes fed to a streaming XXH3 hasher since it was created.
pub uninterp spec fn xxh3_fed(h: Xxh3) -> Seq<u8>;

/// The 64-bit XXH3 digest (seed 0, default secret) of a byte stream.
pub uninterp spec fn xxh3_digest_of(s: Seq<u8>) -> u64;

/// Relies on `xxhash_rust::xxh3::Xxh3::new`: a hasher with seed 0 and the
/// default secret that has been fed nothing.
#[verifier::external_body]
fn hasher_new() -> (r: Xxh3)
    ensures
        xxh3_fed(r) == Seq::<u8>::empty(),
{
    Xxh3::new()
}

/// Relies on `xxhash_rust::xxh3::Xxh3::update`: `input` is appended to the
/// stream the hasher has been fed.
#[verifier::external_body]
fn hasher_update(h: &mut Xxh3, input: &[u8])
    ensures
        xxh3_fed(*final(h)) == xxh3_fed(*old(h)) + input@,
{
    h.update(input)
}

/// Relies on `xxhash_rust::xxh3::Xxh3::digest`: the digest depends on the
/// stream fed alone, and does not change the hasher.
#[verifier::external_body]
fn hasher_digest(h: &Xxh3) -> (r: u64)
    ensures
        r == xxh3_digest_of(xxh3_fed(*h)),
{
    h.digest()
}

/// Size of the blocks in which file contents are fed to the hasher.
pub const BLOCK: usize = 1024;

/// Length prefix of a block: its length as eight little-endian bytes.
pub open spec fn length_prefix(n: nat) -> Seq<u8> {
    seq![(n % 256) as u8, ((n / 256) % 256) as u8, 0u8, 0u8, 0u8, 0u8, 0u8, 0u8]
}

/// A file's contents as fed to the hasher: blocks of at most `BLOCK` bytes,
/// each after its length prefix.
pub open spec fn framed(b: Seq<u8>) -> Seq<u8>
    decreases b.len(),
{
    if b.len() == 0 {
        Seq::empty()
    } else if b.len() <= BLOCK {
        length_prefix(b.len()) + b
    } else {
        length_prefix(BLOCK as nat) + b.subrange(0, BLOCK as int) + framed(
            b.subrange(BLOCK as int, b.len() as int),
        )
    }
}

/// The whole stream fed for `files`, in order.
pub open spec fn stream_of(files: Seq<Seq<u8>>) -> Seq<u8>
    decreases files.len(),
{
    if files.len() == 0 {
        Seq::empty()
    } else {
        stream_of(files.drop_last()) + framed(files.last())
    }
}

/// The contents of each file, in order.
pub open spec fn contents_view(files: Seq<Vec<u8>>) -> Seq<Seq<u8>> {
    files.map_values(|f: Vec<u8>| f@)
}

/// Feeds `b` to the hasher in blocks of at most `BLOCK` bytes, each after
/// its length prefix.
fn feed_file(h: &mut Xxh3, b: &[u8])
    ensures
        xxh3_fed(*final(h)) == xxh3_fed(*old(h)) + framed(b@),
{
    let mut i: usize = 0;
    proof {
        assert(b@.subrange(0, b@.len() as int) =~= b@);
    }
    while i < b.len()
        invariant
            0 <= i <= b@.len(),
            xxh3_fed(*h) + framed(b@.subrange(i as int, b@.len() as int)) == xxh3_fed(*old(h)) + framed(b@),
        decreases b@.len() - i,
    {
        let rest = b.len() - i;
        let n: usize = if rest < BLOCK { rest } else { BLOCK };
        let prefix: [u8; 8] = [(n % 256) as u8, ((n / 256) % 256) as u8, 0, 0, 0, 0, 0, 0];
        let ghost before = xxh3_fed(*h);
        hasher_update(h, &prefix);
        let block = slice_subrange(b, i, i + n);
        hasher_update(h, block);
        proof {
            let r = b@.subrange(i as int, b@.len() as int);
            assert(prefix@ =~= length_prefix(n as nat));
            assert(r.subrange(0, n as int) =~= block@);
            if rest <= BLOCK {
                assert(b@.subrange((i + n) as int, b@.len() as int) =~= Seq::<u8>::empty());
                assert(r =~= block@);
            } else {
                assert(r.subrange(BLOCK as int, r.len() as int) =~= b@.subrange((i + n) as int, b@.len() as int));
            }
            assert(xxh3_fed(*h) =~= before + length_prefix(n as nat) + block@);
        }
        i = i + n;
    }
    proof {
        assert(b@.subrange(i as int, b@.len() as int) =~= Seq::<u8>::empty());
        assert(xxh3_fed(*h) + Seq::<u8>::empty() =~= xxh3_fed(*h));
    }
}

/// The 64-bit content hash of the files, in the order given, each file's bytes
/// streamed through one running XXH3 hasher.
pub fn hash_contents(files: &Vec<Vec<u8>>) -> (r: u64)
    ensures
        r == xxh3_digest_of(stream_of(contents_view(files@))),
{
    let mut h = hasher_new();
    let ghost c = contents_view(files@);
    let mut i: usize = 0;
    while i < files.len()
        invariant
            0 <= i <= files@.len(),
            c == contents_view(files@),
            xxh3_fed(h) == stream_of(c.subrange(0, i as int)),
        decreases files@.len() - i,
    {
        feed_file(&mut h, files[i].as_slice());
        proof {
            let sub = c.subrange(0, i + 1);
            assert(sub.drop_last() =~= c.subrange(0, i as int));
            assert(sub.last() == files@[i as int]@);
        }
        i += 1;
    }
    proof {
        assert(c.subrange(0, i as int) =~= c);
    }
    hasher_digest(&h)
}

/// Each path comes strictly before the next ones.
pub open spec fn strictly_sorted(s: Seq<Seq<char>>) -> bool {
    forall|i: int, j: int| 0 <= i < j < s.len() ==> #[trigger] path_lt(s[i], s[j])
}

/// The characters of each string.
pub open spec fn strings_view(s: Seq<String>) -> Seq<Seq<char>> {
    s.map_values(|x: String| x@)
}

/// The paths in canonical order: sorted by their UTF-8 bytes, each once,
/// whatever the order in which they were discovered.
pub fn canonical_order(paths: &Vec<String>) -> (r: Vec<String>)
    ensures
        strictly_sorted(strings_view(r@)),
        strings_view(r@).to_set() == strings_view(paths@).to_set(),
{
    let mut r: Vec<String> = Vec::new();
    let ghost pv = strings_view(paths@);
    let mut i: usize = 0;
    while i < paths.len()
        invariant
            0 <= i <= paths@.len(),
            pv == strings_view(paths@),
            strictly_sorted(strings_view(r@)),
            strings_view(r@).to_set() == pv.subrange(0, i as int).to_set(),
        decreases paths@.len() - i,
    {
        let p = paths[i].as_str();
        let ghost rv = strings_view(r@);
        let mut j: usize = 0;
        while j < r.len() && path_before(r[j].as_str(), p)
            invariant
                0 <= j <= r@.len(),
                rv == strings_view(r@),
                forall|k: int| 0 <= k < j ==> path_lt(#[trigger] rv[k], p@),
            decreases r@.len() - j,
        {
            j += 1;
        }
        proof {
            assert(pv.subrange(0, i + 1) =~= pv.subrange(0, i as int).push(p@));
        }
        if j < r.len() && str_eq(r[j].as_str(), p) {
            proof {
                assert(rv[j as int] == p@);
                assert(pv.subrange(0, i as int).push(p@).to_set() =~= rv.to_set()) by {
                    assert(rv.to_set().contains(p@));
                }
            }
        } else {
            r.insert(j, paths[i].clone());
            proof {
                let nv = strings_view(r@);
                assert(nv =~= rv.insert(j as int, p@));
                if j < rv.len() {
                    lemma_path_order(rv[j as int], p@);
                }
                assert forall|a: int, b: int| 0 <= a < b < nv.len() implies #[trigger] path_lt(nv[a], nv[b]) by {
                    if b < j {
                        assert(nv[a] == rv[a] && nv[b] == rv[b]);
                    } else if b == j {
                        assert(nv[a] == rv[a]);
                    } else if a < j {
                        assert(nv[a] == rv[a] && nv[b] == rv[b - 1]);
                        assert(path_lt(rv[a], rv[b - 1]));
                    } else if a == j {
                        assert(nv[b] == rv[b - 1]);
                        if b - 1 > j {
                            assert(path_lt(rv[j as int], rv[b - 1]));
                            lemma_lex_transitive(encode_utf8(p@), encode_utf8(rv[j as int]), encode_utf8(rv[b - 1]));
                        }
                    } else {
                        assert(nv[a] == rv[a - 1] && nv[b] == rv[b - 1]);
                        assert(path_lt(rv[a - 1], rv[b - 1]));
                    }
                }
                assert(nv.to_set() =~= rv.to_set().insert(p@)) by {
                    assert forall|x: Seq<char>| nv.to_set().contains(x) implies rv.to_set().insert(p@).contains(x) by {
                        let k = choose|k: int| 0 <= k < nv.len() && nv[k] == x;
                        if k < j {
                            assert(rv[k] == x);
                        } else if k > j {
                            assert(rv[k - 1] == x);
                        }
                    }
                    assert forall|x: Seq<char>| rv.to_set().insert(p@).contains(x) implies nv.to_set().contains(x) by {
                        if x == p@ {
                            assert(nv[j as int] == x);
                        } else {
                            let k = choose|k: int| 0 <= k < rv.len() && rv[k] == x;
                            if k < j {
                                assert(nv[k] == x);
                            } else {
                                assert(nv[k + 1] == x);
                            }
                        }
                    }
                }
                pv.subrange(0, i as int).lemma_push_to_set_commute(p@);
            }
        }
        i += 1;
    }
    proof {
        assert(pv.subrange(0, i as int) =~= pv);
    }
    r
}

/// Decimal digits of `n`, most significant first.
pub open spec fn decimal(n: nat) -> Seq<char>
    decreases n,
{
    if n < 10 {
        seq![digit_char(n)]
    } else {
        decimal(n / 10).push(digit_char(n % 10))
    }
}

pub open spec fn digit_char(d: nat) -> char {
    if d == 0 { '0' }
    else if d == 1 { '1' }
    else if d == 2 { '2' }
    else if d == 3 { '3' }
    else if d == 4 { '4' }
    else if d == 5 { '5' }
    else if d == 6 { '6' }
    else if d == 7 { '7' }
    else if d == 8 { '8' }
    else { '9' }
}

fn digit_str(d: u64) -> (r: &'static str)
    requires
        d < 10,
    ensures
        r@ == seq![digit_char(d as nat)],
{
    proof {
        reveal_strlit("0");
        reveal_strlit("1");
        reveal_strlit("2");
        reveal_strlit("3");
        reveal_strlit("4");
        reveal_strlit("5");
        reveal_strlit("6");
        reveal_strlit("7");
        reveal_strlit("8");
        reveal_strlit("9");
    }
    match d {
        0 => "0",
        1 => "1",
        2 => "2",
        3 => "3",
        4 => "4",
        5 => "5",
        6 => "6",
        7 => "7",
        8 => "8",
        _ => "9",
    }
}

/// The decimal form of `n`, as the state store records hashes.
pub fn to_decimal(n: u64) -> (r: String)
    ensures
        r@ == decimal(n as nat),
    decreases n,
{
    if n < 10 {
        digit_str(n).to_owned()
    } else {
        let head = to_decimal(n / 10);
        concat(head.as_str(), digit_str(n % 10))
    }
}

/// The persisted entries after a check of `key` against `hash`.
pub open spec fn recorded(
    items: Seq<(Seq<char>, Seq<char>)>,
    over: Seq<(Seq<char>, Seq<char>)>,
    key: Seq<char>,
    hash: u64,
) -> Seq<(Seq<char>, Seq<char>)> {
    if hash_matches(items, over, key, hash) {
        items
    } else {
        set_entry(items, key, decimal(hash as nat))
    }
}

/// The value visible under `key` is the decimal form of `hash`.
pub open spec fn hash_matches(
    items: Seq<(Seq<char>, Seq<char>)>,
    over: Seq<(Seq<char>, Seq<char>)>,
    key: Seq<char>,
    hash: u64,
) -> bool {
    let v = if lookup(over, key) is Some { lookup(over, key) } else { lookup(items, key) };
    v == Some(decimal(hash as nat))
}

impl State {
    /// Compares `hash` with the value recorded under `key`. When they differ
    /// (or nothing is recorded) the new hash is persisted and `true` is
    /// returned; otherwise the state is left alone and `false` is returned.
    pub fn did_hash_change(&mut self, key: &str, hash: u64) -> (r: bool)
        requires
            old(self).wf(),
        ensures
            final(self).wf(),
            r == !hash_matches(old(self).items(), old(self).environment(), key@, hash),
            final(self).items() == recorded(old(self).items(), old(self).environment(), key@, hash),
            final(self).environment() == old(self).environment(),
    {
        let text = to_decimal(hash);
        let same = match self.get(key) {
            Some(v) => str_eq(v, text.as_str()),
            None => false,
        };
        if same {
            false
        } else {
            self.set(key, text.as_str());
            true
        }
    }

    /// The change detector: hashes the files' contents (given in canonical
    /// path order) and records the hash under `key` when it differs from the
    /// recorded one.
    pub fn changed(&mut self, key: &str, files: &Vec<Vec<u8>>) -> (r: bool)
        requires
            old(self).wf(),
        ensures
            final(self).wf(),
            r == !hash_matches(
                old(self).items(),
                old(self).environment(),
                key@,
                xxh3_digest_of(stream_of(contents_view(files@))),
            ),
            final(self).items() == recorded(
                old(self).items(),
                old(self).environment(),
                key@,
                xxh3_digest_of(stream_of(contents_view(files@))),
            ),
            final(self).environment() == old(self).environment(),
    {
        let hash = hash_contents(files);
        self.did_hash_change(key, hash)
    }
}

/// Two strictly sorted lists of paths holding the same paths are equal.
proof fn lemma_sorted_unique(a: Seq<Seq<char>>, b: Seq<Seq<char>>)
    requires
        strictly_sorted(a),
        strictly_sorted(b),
        a.to_set() == b.to_set(),
    ensures
        a == b,
    decreases a.len(),
{
    if a.len() == 0 {
        if b.len() > 0 {
            assert(b.to_set().contains(b[0]));
        }
        assert(a =~= b);
    } else {
        assert(a.to_set().contains(a[0]));
        let k = choose|k: int| 0 <= k < b.len() && b[k] == a[0];
        assert(b.to_set().contains(b[0]));
        let m = choose|m: int| 0 <= m < a.len() && a[m] == b[0];
        lemma_path_order(a[0], b[0]);
        lemma_path_order(a[0], a[0]);
        if k > 0 {
            assert(path_lt(b[0], b[k]));
            if m > 0 {
                assert(path_lt(a[0], a[m]));
            }
        }
        assert(a[0] == b[0]);
        let a1 = a.drop_first();
        let b1 = b.drop_first();
        assert forall|x: Seq<char>| a1.to_set().contains(x) implies b1.to_set().contains(x) by {
            let i = choose|i: int| 0 <= i < a1.len() && a1[i] == x;
            assert(path_lt(a[0], a[i + 1]));
            lemma_path_order(x, x);
            assert(b.to_set().contains(x)) by {
                assert(a.to_set().contains(a[i + 1]));
            }
            let j = choose|j: int| 0 <= j < b.len() && b[j] == x;
            assert(j != 0);
            assert(b1[j - 1] == x);
        }
        assert forall|x: Seq<char>| b1.to_set().contains(x) implies a1.to_set().contains(x) by {
            let i = choose|i: int| 0 <= i < b1.len() && b1[i] == x;
            assert(path_lt(b[0], b[i + 1]));
            lemma_path_order(x, x);
            assert(a.to_set().contains(x)) by {
                assert(b.to_set().contains(b[i + 1]));
            }
            let j = choose|j: int| 0 <= j < a.len() && a[j] == x;
            assert(j != 0);
            assert(a1[j - 1] == x);
        }
        assert(a1.to_set() =~= b1.to_set());
        assert(strictly_sorted(a1)) by {
            assert forall|i: int, j: int| 0 <= i < j < a1.len() implies #[trigger] path_lt(a1[i], a1[j]) by {
                assert(path_lt(a[i + 1], a[j + 1]));
            }
        }
        assert(strictly_sorted(b1)) by {
            assert forall|i: int, j: int| 0 <= i < j < b1.len() implies #[trigger] path_lt(b1[i], b1[j]) by {
                assert(path_lt(b[i + 1], b[j + 1]));
            }
        }
        lemma_sorted_unique(a1, b1);
        assert(a =~= seq![a[0]] + a1);
        assert(b =~= seq![b[0]] + b1);
    }
}

/// The canonical order of discovered files depends only on which files were
/// discovered: two discoveries of the same paths, in whatever order and with
/// whatever repetitions, give the same canonical list (and so the same hash).
pub proof fn lemma_discovery_order_irrelevant(
    found1: Seq<Seq<char>>,
    found2: Seq<Seq<char>>,
    canon1: Seq<Seq<char>>,
    canon2: Seq<Seq<char>>,
)
    requires
        found1.to_set() == found2.to_set(),
        strictly_sorted(canon1),
        canon1.to_set() == found1.to_set(),
        strictly_sorted(canon2),
        canon2.to_set() == found2.to_set(),
    ensures
        canon1 == canon2,
{
    lemma_sorted_unique(canon1, canon2);
}

/// After a check of `key` against `hash`, the recorded value matches `hash`:
/// checking the same contents again reports no change, as long as no value
/// for the current run shadows `key`.
pub proof fn lemma_second_check_unchanged(
    items: Seq<(Seq<char>, Seq<char>)>,
    over: Seq<(Seq<char>, Seq<char>)>,
    key: Seq<char>,
    hash: u64,
)
    requires
        keys_sorted(items),
        lookup(over, key) is None,
    ensures
        hash_matches(recorded(items, over, key, hash), over, key, hash),
{
    if !hash_matches(items, over, key, hash) {
        lemma_set_entry(items, key, decimal(hash as nat));
    }
}

} // verus!
