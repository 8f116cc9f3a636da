//! The cache interceptor and the middleware chain: aggregate counts are
//! served from a key-value cache keyed by table, operation and compressed
//! filter text; a flush increments the unfiltered count key if it is
//! cached and drops every filtered variant.

use vstd::prelude::*;
use vstd::seq_lib::*;
use vstd::string::StrSliceExecFns;
use vstd::string::StringExecFns;
use vstd::string::StringSliceAdditionalSpecFns;

verus! {

/// The zlib compression of a byte sequence at the fast level.
pub uninterp spec fn zlib_fast_of(bytes: Seq<u8>) -> Seq<u8>;

/// The standard-alphabet base64 rendering of a byte sequence.
pub uninterp spec fn base64_of(bytes: Seq<u8>) -> Seq<char>;

/// Relies on flate2's `ZlibEncoder` (`new`, `write_all`, `finish`) at the
/// fast compression level: the output depends on the input bytes alone,
/// and writing into a `Vec` sink cannot fail.
#[verifier::external_body]
fn zlib_fast(input: &str) -> (r: Vec<u8>)
    ensures
        r@ == zlib_fast_of(input.spec_bytes()),
{
    let mut enc = flate2::write::ZlibEncoder::new(Vec::new(), flate2::Compression::fast());
    std::io::Write::write_all(&mut enc, input.as_bytes()).unwrap();
    enc.finish().unwrap()
}

/// Relies on base64's standard-alphabet engine `encode`: the output
/// depends on the input bytes alone.
#[verifier::external_body]
fn base64_encode(bytes: &Vec<u8>) -> (r: String)
    ensures
        r@ == base64_of(bytes@),
{
    base64::Engine::encode(&base64::engine::general_purpose::STANDARD, bytes)
}

/// The cache key of one aggregate query: prefix, table and operation,
/// and, for a filtered query, the compressed and encoded filter text.
pub open spec fn spec_cache_key(
    prefix: Seq<char>,
    table: Seq<char>,
    operation: Seq<char>,
    filter: Option<Seq<char>>,
) -> Seq<char> {
    let base = prefix + ":"@ + table + ":"@ + operation;
    match filter {
        None => base,
        Some(f) => base + ":"@ + base64_of(zlib_fast_of(vstd::utf8::encode_utf8(f))),
    }
}

/// Renders the cache key of one aggregate query.
pub fn cache_key(prefix: &str, table: &str, operation: &str, filter: Option<&str>) -> (r: String)
    ensures
        r@ == spec_cache_key(
            prefix@,
            table@,
            operation@,
            match filter {
                Some(f) => Some(f@),
                None => None,
            },
        ),
{
    let mut s = String::new();
    s.append(prefix);
    s.append(":");
    s.append(table);
    s.append(":");
    s.append(operation);
    match filter {
        None => {},
        Some(f) => {
            s.append(":");
            let compressed = zlib_fast(f);
            let encoded = base64_encode(&compressed);
            s.append(encoded.as_str());
        },
    }
    proof {
        assert(s@ =~= spec_cache_key(
            prefix@,
            table@,
            operation@,
            match filter {
                Some(f) => Some(f@),
                None => None,
            },
        ));
    }
    s
}

/// Whether `p` is a prefix of `s`.
pub open spec fn is_prefix(p: Seq<char>, s: Seq<char>) -> bool {
    p.len() <= s.len() && s.subrange(0, p.len() as int) == p
}

/// Tests `is_prefix` on strings.
pub fn str_starts_with(p: &str, s: &str) -> (r: bool)
    ensures
        r == is_prefix(p@, s@),
{
    let plen = p.unicode_len();
    let slen = s.unicode_len();
    if plen > slen {
        return false;
    }
    let mut i: usize = 0;
    while i < plen
        invariant
            plen == p@.len(),
            slen == s@.len(),
            plen <= slen,
            i <= plen,
            forall|k: int| 0 <= k < i ==> s@[k] == p@[k],
        decreases plen - i,
    {
        if p.get_char(i) != s.get_char(i) {
            assert(s@.subrange(0, plen as int)[i as int] != p@[i as int]);
            return false;
        }
        i = i + 1;
    }
    proof {
        assert(s@.subrange(0, plen as int) =~= p@);
    }
    true
}

/// The in-memory model of the cached keyspace this interceptor owns: an
/// association list with unique keys.
pub struct CacheState {
    pub entries: Vec<(String, i64)>,
}

/// The position of the entry holding the key; the length when none does.
pub open spec fn ckey_slot(s: Seq<(String, i64)>, k: Seq<char>) -> int
    decreases s.len(),
{
    if s.len() == 0 {
        0
    } else if s[0].0@ == k {
        0
    } else {
        1 + ckey_slot(s.skip(1), k)
    }
}

pub proof fn lemma_ckey_slot(s: Seq<(String, i64)>, k: Seq<char>)
    ensures
        0 <= ckey_slot(s, k) <= s.len(),
        ckey_slot(s, k) < s.len() ==> s[ckey_slot(s, k)].0@ == k,
        (ckey_slot(s, k) < s.len()) == (exists|i: int| 0 <= i < s.len() && (#[trigger] s[i]).0@
            == k),
    decreases s.len(),
{
    if s.len() == 0 {
    } else if s[0].0@ == k {
    } else {
        lemma_ckey_slot(s.skip(1), k);
        if exists|i: int| 0 <= i < s.len() && (#[trigger] s[i]).0@ == k {
            let i = choose|i: int| 0 <= i < s.len() && (#[trigger] s[i]).0@ == k;
            assert(s.skip(1)[i - 1] == s[i]);
        }
    }
}

/// The cached value under a key, if any.
pub open spec fn cache_get(s: Seq<(String, i64)>, k: Seq<char>) -> Option<i64> {
    if ckey_slot(s, k) < s.len() {
        Some(s[ckey_slot(s, k)].1)
    } else {
        None
    }
}

impl CacheState {
    /// Unique keys.
    pub open spec fn wf(self) -> bool {
        forall|i: int, j: int|
            0 <= i < j < self.entries@.len() ==> (#[trigger] self.entries@[i]).0@ != (
            #[trigger] self.entries@[j]).0@
    }

    pub fn new() -> (r: Self)
        ensures
            r.entries@.len() == 0,
            r.wf(),
    {
        CacheState { entries: Vec::new() }
    }

    /// Looks a key up.
    pub fn get(&self, key: &str) -> (r: Option<i64>)
        ensures
            r == cache_get(self.entries@, key@),
    {
        proof {
            lemma_ckey_slot(self.entries@, key@);
            assert(self.entries@.skip(0) =~= self.entries@);
        }
        let mut i: usize = 0;
        while i < self.entries.len()
            invariant
                i <= self.entries@.len(),
                ckey_slot(self.entries@, key@) == i + ckey_slot(
                    self.entries@.skip(i as int),
                    key@,
                ),
            decreases self.entries@.len() - i,
        {
            proof {
                assert(self.entries@.skip(i as int).skip(1) =~= self.entries@.skip(i as int + 1));
                assert(self.entries@.skip(i as int)[0] == self.entries@[i as int]);
            }
            if crate::text::str_eq(self.entries[i].0.as_str(), key) {
                return Some(self.entries[i].1);
            }
            i = i + 1;
        }
        proof {
            assert(self.entries@.skip(i as int) =~= Seq::<(String, i64)>::empty());
        }
        None
    }

    /// Stores a value under a key, replacing any entry the key already
    /// has.
    pub fn set(&mut self, key: String, value: i64)
        ensures
            ({
                let s = ckey_slot(old(self).entries@, key@);
                &&& (s < old(self).entries@.len() ==> final(self).entries@ == old(
                    self,
                ).entries@.update(s, (key, value)))
                &&& (s >= old(self).entries@.len() ==> final(self).entries@ == old(
                    self,
                ).entries@.push((key, value)))
            }),
            old(self).wf() ==> final(self).wf(),
    {
        proof {
            lemma_ckey_slot(self.entries@, key@);
            assert(self.entries@.skip(0) =~= self.entries@);
        }
        let ghost entries0 = self.entries@;
        let mut i: usize = 0;
        while i < self.entries.len()
            invariant
                self.entries@ == entries0,
                entries0 == old(self).entries@,
                i <= entries0.len(),
                ckey_slot(entries0, key@) == i + ckey_slot(entries0.skip(i as int), key@),
            decreases entries0.len() - i,
        {
            proof {
                assert(entries0.skip(i as int).skip(1) =~= entries0.skip(i as int + 1));
                assert(entries0.skip(i as int)[0] == entries0[i as int]);
            }
            if crate::text::str_eq(self.entries[i].0.as_str(), key.as_str()) {
                proof {
                    assert(ckey_slot(entries0, key@) == i as int);
                }
                self.entries[i] = (key, value);
                proof {
                    assert(self.entries@ =~= entries0.update(i as int, (key, value)));
                }
                return ;
            }
            i = i + 1;
        }
        proof {
            assert(entries0.skip(i as int) =~= Seq::<(String, i64)>::empty());
            lemma_ckey_slot(entries0, key@);
        }
        self.entries.push((key, value));
    }

    /// Increments the value under the key only if the key is cached: a
    /// key nobody populated is not resurrected. A counter already at the
    /// numeric bound cannot be incremented and fails the call.
    pub fn incr_if_present(&mut self, key: &str) -> (r: Result<(), CacheError>)
        ensures
            ({
                let s = ckey_slot(old(self).entries@, key@);
                if s < old(self).entries@.len() {
                    if old(self).entries@[s].1 < i64::MAX {
                        &&& r is Ok
                        &&& final(self).entries@ == old(self).entries@.update(
                            s,
                            (old(self).entries@[s].0, (old(self).entries@[s].1 + 1) as i64),
                        )
                    } else {
                        &&& r is Err
                        &&& final(self).entries@ == old(self).entries@
                    }
                } else {
                    &&& r is Ok
                    &&& final(self).entries@ == old(self).entries@
                }
            }),
            old(self).wf() ==> final(self).wf(),
    {
        proof {
            lemma_ckey_slot(self.entries@, key@);
            assert(self.entries@.skip(0) =~= self.entries@);
        }
        let ghost entries0 = self.entries@;
        let mut i: usize = 0;
        while i < self.entries.len()
            invariant
                self.entries@ == entries0,
                entries0 == old(self).entries@,
                i <= entries0.len(),
                ckey_slot(entries0, key@) == i + ckey_slot(entries0.skip(i as int), key@),
            decreases entries0.len() - i,
        {
            proof {
                assert(entries0.skip(i as int).skip(1) =~= entries0.skip(i as int + 1));
                assert(entries0.skip(i as int)[0] == entries0[i as int]);
            }
            if crate::text::str_eq(self.entries[i].0.as_str(), key) {
                proof {
                    assert(ckey_slot(entries0, key@) == i as int);
                }
                let v = self.entries[i].1;
                if v == i64::MAX {
                    return Err(CacheError::CounterOverflow);
                }
                let k2 = self.entries[i].0.clone();
                self.entries[i] = (k2, v + 1);
                proof {
                    assert(self.entries@ =~= entries0.update(
                        i as int,
                        (entries0[i as int].0, (entries0[i as int].1 + 1) as i64),
                    ));
                }
                return Ok(());
            }
            i = i + 1;
        }
        proof {
            assert(entries0.skip(i as int) =~= Seq::<(String, i64)>::empty());
        }
        Ok(())
    }

    /// Removes every entry whose key starts with the given prefix.
    pub fn remove_filtered(&mut self, prefix: &str)
        ensures
            final(self).entries@ == old(self).entries@.filter(keep_pred(prefix@)),
            old(self).wf() ==> final(self).wf(),
    {
        let ghost entries0 = self.entries@;
        let ghost pred = keep_pred(prefix@);
        let mut kept: Vec<(String, i64)> = Vec::new();
        let mut i: usize = 0;
        proof {
            assert(entries0.take(0).filter(pred) =~= Seq::<(String, i64)>::empty());
        }
        while i < self.entries.len()
            invariant
                self.entries@ == entries0,
                i <= entries0.len(),
                pred == keep_pred(prefix@),
                kept@ == entries0.take(i as int).filter(pred),
                old(self).wf() ==> (forall|p: int, q: int|
                    0 <= p < q < kept@.len() ==> (#[trigger] kept@[p]).0@ != (
                    #[trigger] kept@[q]).0@),
                old(self).wf() ==> (forall|t: int|
                    0 <= t < kept@.len() ==> exists|u: int|
                        0 <= u < i && (#[trigger] kept@[t]).0@ == entries0[u].0@),
                entries0 == old(self).entries@,
            decreases entries0.len() - i,
        {
            proof {
                assert(entries0.take(i as int + 1).drop_last() =~= entries0.take(i as int));
                assert(entries0.take(i as int + 1).last() == entries0[i as int]);
                reveal(Seq::filter);
            }
            if !str_starts_with(prefix, self.entries[i].0.as_str()) {
                let k2 = self.entries[i].0.clone();
                let v = self.entries[i].1;
                proof {
                    assert(pred(entries0[i as int]));
                    assert((k2, v) == entries0[i as int]);
                }
                kept.push((k2, v));
                proof {
                    assert(kept@ =~= entries0.take(i as int + 1).filter(pred));
                }
            } else {
                proof {
                    assert(!pred(entries0[i as int]));
                    assert(kept@ =~= entries0.take(i as int + 1).filter(pred));
                }
            }
            i = i + 1;
        }
        proof {
            assert(entries0.take(entries0.len() as int) =~= entries0);
        }
        self.entries = kept;
    }
}

/// The entries a flush keeps: those whose key does not start with the
/// invalidated prefix.
pub open spec fn keep_pred(prefix: Seq<char>) -> spec_fn((String, i64)) -> bool {
    |p: (String, i64)| !is_prefix(prefix, p.0@)
}

/// An increment or store the cache refused.
#[derive(Debug)]
pub enum CacheError {
    /// The cached counter stands at the numeric bound and cannot be
    /// incremented.
    CounterOverflow,
}

/// Every entry of a filtered sequence comes from the original.
proof fn lemma_filter_source<A>(s: Seq<A>, pred: spec_fn(A) -> bool)
    ensures
        forall|i: int|
            0 <= i < s.filter(pred).len() ==> exists|j: int|
                0 <= j < s.len() && s[j] == #[trigger] s.filter(pred)[i],
    decreases s.len(),
{
    reveal(Seq::filter);
    if s.len() == 0 {
    } else {
        lemma_filter_source(s.drop_last(), pred);
        assert forall|i: int| 0 <= i < s.filter(pred).len() implies exists|j: int|
            0 <= j < s.len() && s[j] == #[trigger] s.filter(pred)[i] by {
            let sub = s.drop_last().filter(pred);
            if i < sub.len() {
                assert(s.filter(pred)[i] == sub[i]);
                let j = choose|j: int| 0 <= j < s.drop_last().len() && s.drop_last()[j] == sub[i];
                assert(s[j] == s.filter(pred)[i]);
            } else {
                assert(s.filter(pred)[i] == s.last());
                assert(s[s.len() - 1] == s.filter(pred)[i]);
            }
        }
    }
}

/// With unique keys, any entry holding the key decides the lookup.
proof fn lemma_get_unique(s: Seq<(String, i64)>, k: Seq<char>, j: int)
    requires
        forall|p: int, q: int|
            0 <= p < q < s.len() ==> (#[trigger] s[p]).0@ != (#[trigger] s[q]).0@,
        0 <= j < s.len(),
        s[j].0@ == k,
    ensures
        cache_get(s, k) == Some(s[j].1),
{
    lemma_ckey_slot(s, k);
    let sl = ckey_slot(s, k);
    if sl != j {
        assert(s[sl].0@ == s[j].0@);
        assert(false);
    }
}

/// Filtering keeps keys pairwise distinct.
proof fn lemma_filter_distinct(s: Seq<(String, i64)>, pred: spec_fn((String, i64)) -> bool)
    requires
        forall|p: int, q: int|
            0 <= p < q < s.len() ==> (#[trigger] s[p]).0@ != (#[trigger] s[q]).0@,
    ensures
        forall|p: int, q: int|
            0 <= p < q < s.filter(pred).len() ==> (#[trigger] s.filter(pred)[p]).0@ != (
            #[trigger] s.filter(pred)[q]).0@,
    decreases s.len(),
{
    reveal(Seq::filter);
    if s.len() == 0 {
    } else {
        let head = s.drop_last();
        assert(forall|p: int, q: int|
            0 <= p < q < head.len() ==> (#[trigger] head[p]).0@ != (#[trigger] head[q]).0@);
        lemma_filter_distinct(head, pred);
        lemma_filter_source(head, pred);
        let sub = head.filter(pred);
        if pred(s.last()) {
            assert forall|p: int, q: int|
                0 <= p < q < s.filter(pred).len() implies (#[trigger] s.filter(pred)[p]).0@ != (
                #[trigger] s.filter(pred)[q]).0@ by {
                if q < sub.len() {
                    assert(s.filter(pred)[p] == sub[p]);
                    assert(s.filter(pred)[q] == sub[q]);
                } else {
                    assert(s.filter(pred)[q] == s.last());
                    assert(s.filter(pred)[p] == sub[p]);
                    let j = choose|j: int| 0 <= j < head.len() && head[j] == sub[p];
                    assert(s[j] == head[j]);
                    assert(s[j].0@ != s[s.len() - 1].0@);
                }
            }
        }
    }
}

/// The interceptor backing aggregate counts by a key-value cache.
pub struct CacheMiddleware {
    pub prefix: String,
    pub state: CacheState,
}

/// The view of an optional filter text.
pub open spec fn filter_view(f: Option<&str>) -> Option<Seq<char>> {
    match f {
        Some(x) => Some(x@),
        None => None,
    }
}

/// What a flush invalidation does to the cached keyspace: the unfiltered
/// count key is incremented only if it is cached, and every filtered
/// variant of it is removed. A cached counter at the numeric bound
/// refuses the flush and leaves the state unchanged.
pub open spec fn flush_effect(
    pre: CacheState,
    post: CacheState,
    prefix: Seq<char>,
    table: Seq<char>,
    ok: bool,
) -> bool {
    let k0 = spec_cache_key(prefix, table, "count"@, None);
    let s = ckey_slot(pre.entries@, k0);
    if s < pre.entries@.len() {
        if pre.entries@[s].1 < i64::MAX {
            &&& ok
            &&& post.entries@ == pre.entries@.update(
                s,
                (pre.entries@[s].0, (pre.entries@[s].1 + 1) as i64),
            ).filter(keep_pred(k0 + ":"@))
        } else {
            &&& !ok
            &&& post.entries@ == pre.entries@
        }
    } else {
        &&& ok
        &&& post.entries@ == pre.entries@.filter(keep_pred(k0 + ":"@))
    }
}

impl CacheMiddleware {
    pub fn new(prefix: String) -> (r: Self)
        ensures
            r.prefix == prefix,
            r.state.entries@.len() == 0,
            r.state.wf(),
    {
        CacheMiddleware { prefix, state: CacheState::new() }
    }

    /// The aggregate pre-step: a cached count short-circuits the chain;
    /// on a miss the caller runs the terminal query and stores the
    /// result.
    pub fn aggregate_lookup(&self, table: &str, operation: &str, filter: Option<&str>) -> (r:
        Option<i64>)
        ensures
            r == cache_get(
                self.state.entries@,
                spec_cache_key(self.prefix@, table@, operation@, filter_view(filter)),
            ),
    {
        let key = cache_key(self.prefix.as_str(), table, operation, filter);
        self.state.get(key.as_str())
    }

    /// The aggregate post-step after a miss: the terminal result is
    /// cached.
    pub fn aggregate_store(&mut self, table: &str, operation: &str, filter: Option<&str>, count: i64)
        ensures
            final(self).prefix == old(self).prefix,
            set_post(
                old(self).state.entries@,
                final(self).state.entries@,
                spec_cache_key(old(self).prefix@, table@, operation@, filter_view(filter)),
                count,
            ),
            old(self).state.wf() ==> final(self).state.wf(),
    {
        let key = cache_key(self.prefix.as_str(), table, operation, filter);
        proof {
            lemma_ckey_slot(self.state.entries@, key@);
        }
        self.state.set(key, count);
    }

    /// The flush post-step, run after the terminal insert: invalidates
    /// this table's cached counts, as `flush_effect` says.
    pub fn flush(&mut self, table: &str) -> (r: Result<(), CacheError>)
        requires
            old(self).state.wf(),
        ensures
            final(self).prefix == old(self).prefix,
            final(self).state.wf(),
            flush_effect(old(self).state, final(self).state, old(self).prefix@, table@, r is Ok),
    {
        let key = cache_key(self.prefix.as_str(), table, "count", None);
        let ghost k0 = key@;
        match self.state.incr_if_present(key.as_str()) {
            Err(e) => {
                return Err(e);
            },
            Ok(_) => {},
        }
        let mut pattern = key;
        pattern.append(":");
        proof {
            assert(pattern@ == k0 + ":"@);
        }
        self.state.remove_filtered(pattern.as_str());
        Ok(())
    }
}

/// What a store does to the keyspace: the key now holds the value, in
/// place if it was cached, appended otherwise, and no other entry moves.
pub open spec fn set_post(
    pre: Seq<(String, i64)>,
    post: Seq<(String, i64)>,
    k: Seq<char>,
    v: i64,
) -> bool {
    let s = ckey_slot(pre, k);
    if s < pre.len() {
        &&& post.len() == pre.len()
        &&& (forall|j: int| 0 <= j < pre.len() && j != s ==> post[j] == pre[j])
        &&& post[s].0@ == k
        &&& post[s].1 == v
    } else {
        &&& post.len() == pre.len() + 1
        &&& (forall|j: int| 0 <= j < pre.len() ==> post[j] == pre[j])
        &&& post[pre.len() as int].0@ == k
        &&& post[pre.len() as int].1 == v
    }
}

/// Cache correctness at a flush: when the unfiltered count of the table
/// was cached and matched the stored rows, the cached count reflects the
/// inserted row afterwards, and no filtered count of the table is served
/// from the cache any more.
pub proof fn lemma_cache_correct(
    pre: CacheState,
    post: CacheState,
    prefix: Seq<char>,
    table: Seq<char>,
    n: i64,
)
    requires
        pre.wf(),
        flush_effect(pre, post, prefix, table, true),
        cache_get(pre.entries@, spec_cache_key(prefix, table, "count"@, None)) == Some(n),
        n < i64::MAX,
    ensures
        cache_get(post.entries@, spec_cache_key(prefix, table, "count"@, None)) == Some(
            (n + 1) as i64,
        ),
        forall|f: Seq<char>|
            cache_get(
                post.entries@,
                #[trigger] spec_cache_key(prefix, table, "count"@, Some(f)),
            ) is None,
{
    let k0 = spec_cache_key(prefix, table, "count"@, None);
    let s = ckey_slot(pre.entries@, k0);
    lemma_ckey_slot(pre.entries@, k0);
    let mid = pre.entries@.update(s, (pre.entries@[s].0, (n + 1) as i64));
    let pred = keep_pred(k0 + ":"@);
    assert(post.entries@ == mid.filter(pred));
    assert(forall|p: int, q: int|
        0 <= p < q < mid.len() ==> (#[trigger] mid[p]).0@ != (#[trigger] mid[q]).0@);
    lemma_filter_distinct(mid, pred);
    lemma_filter_source(mid, pred);

    // The unfiltered entry survives the prefix removal with the new
    // count.
    reveal_strlit(":");
    assert((k0 + ":"@).len() == k0.len() + 1);
    assert(!is_prefix(k0 + ":"@, k0));
    assert(pred(mid[s]));
    mid.lemma_filter_contains(pred, s);
    let j = choose|j: int| 0 <= j < post.entries@.len() && post.entries@[j] == mid[s];
    lemma_get_unique(post.entries@, k0, j);

    // Every filtered variant starts with the unfiltered key and the
    // separator, so it was removed.
    assert forall|f: Seq<char>|
        cache_get(
            post.entries@,
            #[trigger] spec_cache_key(prefix, table, "count"@, Some(f)),
        ) is None by {
        let kf = spec_cache_key(prefix, table, "count"@, Some(f));
        assert(kf =~= k0 + ":"@ + base64_of(zlib_fast_of(vstd::utf8::encode_utf8(f))));
        assert(kf.subrange(0, (k0 + ":"@).len() as int) =~= k0 + ":"@);
        assert(is_prefix(k0 + ":"@, kf));
        lemma_ckey_slot(post.entries@, kf);
        if ckey_slot(post.entries@, kf) < post.entries@.len() {
            let sl = ckey_slot(post.entries@, kf);
            mid.lemma_filter_pred(pred, sl);
            assert(false);
        }
    }
}

/// One interceptor of the middleware chain.
pub enum Interceptor {
    Cache(CacheMiddleware),
}

/// A valid interceptor.
pub open spec fn ic_wf(ic: Interceptor) -> bool {
    match ic {
        Interceptor::Cache(cm) => cm.state.wf(),
    }
}

/// What the chain answers without reaching the terminal operation:
/// scanning from the last-registered (outermost) interceptor inward, the
/// first cached count short-circuits.
pub open spec fn chain_lookup(
    ics: Seq<Interceptor>,
    table: Seq<char>,
    operation: Seq<char>,
    filter: Option<Seq<char>>,
) -> Option<i64>
    decreases ics.len(),
{
    if ics.len() == 0 {
        None
    } else {
        match ics.last() {
            Interceptor::Cache(cm) => match cache_get(
                cm.state.entries@,
                spec_cache_key(cm.prefix@, table, operation, filter),
            ) {
                Some(v) => Some(v),
                None => chain_lookup(ics.drop_last(), table, operation, filter),
            },
        }
    }
}

/// One interceptor after the store that follows a miss.
pub open spec fn ic_stored(
    pre: Interceptor,
    post: Interceptor,
    table: Seq<char>,
    operation: Seq<char>,
    filter: Option<Seq<char>>,
    count: i64,
) -> bool {
    match (pre, post) {
        (Interceptor::Cache(a), Interceptor::Cache(b)) => {
            &&& b.prefix == a.prefix
            &&& set_post(
                a.state.entries@,
                b.state.entries@,
                spec_cache_key(a.prefix@, table, operation, filter),
                count,
            )
        },
    }
}

/// One interceptor after the invalidation that follows a flush.
pub open spec fn ic_flushed(pre: Interceptor, post: Interceptor, table: Seq<char>) -> bool {
    match (pre, post) {
        (Interceptor::Cache(a), Interceptor::Cache(b)) => {
            &&& b.prefix == a.prefix
            &&& flush_effect(a.state, b.state, a.prefix@, table, true)
        },
    }
}

/// An interceptor whose cached counter for the table stands at the
/// numeric bound, so its invalidation must refuse.
pub open spec fn ic_flush_blocked(ic: Interceptor, table: Seq<char>) -> bool {
    match ic {
        Interceptor::Cache(cm) => {
            let k0 = spec_cache_key(cm.prefix@, table, "count"@, None);
            let s = ckey_slot(cm.state.entries@, k0);
            s < cm.state.entries@.len() && cm.state.entries@[s].1 == i64::MAX
        },
    }
}

/// The ordered interceptor list around the terminal storage operations.
/// The driver calls the pre-step of each interceptor from the last
/// registered inward, runs the terminal operation only if none
/// short-circuited, and then the post-steps.
pub struct MiddlewareChain {
    pub interceptors: Vec<Interceptor>,
}

impl MiddlewareChain {
    pub open spec fn wf(self) -> bool {
        forall|i: int|
            0 <= i < self.interceptors@.len() ==> ic_wf(#[trigger] self.interceptors@[i])
    }

    pub fn new() -> (r: Self)
        ensures
            r.interceptors@.len() == 0,
            r.wf(),
    {
        MiddlewareChain { interceptors: Vec::new() }
    }

    /// Registers one more interceptor; the latest registered acts first.
    pub fn add_middleware(&mut self, ic: Interceptor)
        ensures
            final(self).interceptors@ == old(self).interceptors@.push(ic),
            old(self).wf() && ic_wf(ic) ==> final(self).wf(),
    {
        self.interceptors.push(ic);
    }

    /// The aggregate pre-steps: the first cached count, scanning from the
    /// outermost interceptor; `None` when every interceptor delegates and
    /// the terminal query must run.
    pub fn aggregate_begin(&self, table: &str, operation: &str, filter: Option<&str>) -> (r:
        Option<i64>)
        ensures
            r == chain_lookup(self.interceptors@, table@, operation@, filter_view(filter)),
    {
        proof {
            assert(self.interceptors@.take(self.interceptors@.len() as int)
                =~= self.interceptors@);
        }
        let mut i: usize = self.interceptors.len();
        while i > 0
            invariant
                i <= self.interceptors@.len(),
                chain_lookup(self.interceptors@, table@, operation@, filter_view(filter))
                    == chain_lookup(
                    self.interceptors@.take(i as int),
                    table@,
                    operation@,
                    filter_view(filter),
                ),
            decreases i,
        {
            i = i - 1;
            proof {
                assert(self.interceptors@.take(i as int + 1).drop_last() =~= self.interceptors@
                    .take(i as int));
                assert(self.interceptors@.take(i as int + 1).last() == self.interceptors@[
                    i as int]);
            }
            match &self.interceptors[i] {
                Interceptor::Cache(cm) => {
                    match cm.aggregate_lookup(table, operation, filter) {
                        Some(v) => {
                            return Some(v);
                        },
                        None => {},
                    }
                },
            }
        }
        proof {
            assert(self.interceptors@.take(0) =~= Seq::<Interceptor>::empty());
        }
        None
    }

    /// The aggregate post-steps after a miss: every interceptor caches
    /// what the terminal query returned.
    pub fn aggregate_complete(&mut self, table: &str, operation: &str, filter: Option<&str>, count: i64)
        ensures
            final(self).interceptors@.len() == old(self).interceptors@.len(),
            forall|k: int|
                0 <= k < old(self).interceptors@.len() ==> ic_stored(
                    #[trigger] old(self).interceptors@[k],
                    final(self).interceptors@[k],
                    table@,
                    operation@,
                    filter_view(filter),
                    count,
                ),
            old(self).wf() ==> final(self).wf(),
    {
        let ghost ics0 = self.interceptors@;
        let mut i: usize = 0;
        while i < self.interceptors.len()
            invariant
                ics0 == old(self).interceptors@,
                self.interceptors@.len() == ics0.len(),
                i <= ics0.len(),
                forall|k: int|
                    0 <= k < i ==> ic_stored(
                        #[trigger] ics0[k],
                        self.interceptors@[k],
                        table@,
                        operation@,
                        filter_view(filter),
                        count,
                    ),
                forall|k: int| i <= k < ics0.len() ==> self.interceptors@[k] == ics0[k],
                old(self).wf() ==> (forall|k: int|
                    0 <= k < self.interceptors@.len() ==> ic_wf(
                        #[trigger] self.interceptors@[k],
                    )),
            decreases ics0.len() - i,
        {
            let ghost before = self.interceptors@;
            let ic = self.interceptors.remove(i);
            match ic {
                Interceptor::Cache(mut cm) => {
                    cm.aggregate_store(table, operation, filter, count);
                    self.interceptors.insert(i, Interceptor::Cache(cm));
                },
            }
            proof {
                assert(self.interceptors@ =~= before.update(i as int, self.interceptors@[
                    i as int]));
            }
            i = i + 1;
        }
    }

    /// The flush post-steps after the terminal insert: every interceptor
    /// invalidates its cached counts for the table, from the innermost
    /// outward. One refused invalidation aborts the rest, as the enclosing
    /// flush does.
    pub fn flush_finish(&mut self, table: &str) -> (r: Result<(), CacheError>)
        requires
            old(self).wf(),
        ensures
            final(self).wf(),
            final(self).interceptors@.len() == old(self).interceptors@.len(),
            r is Ok ==> forall|k: int|
                0 <= k < old(self).interceptors@.len() ==> ic_flushed(
                    #[trigger] old(self).interceptors@[k],
                    final(self).interceptors@[k],
                    table@,
                ),
            r is Err ==> exists|k: int|
                0 <= k < old(self).interceptors@.len() && ic_flush_blocked(
                    #[trigger] old(self).interceptors@[k],
                    table@,
                ),
    {
        let ghost ics0 = self.interceptors@;
        let mut i: usize = 0;
        while i < self.interceptors.len()
            invariant
                ics0 == old(self).interceptors@,
                self.interceptors@.len() == ics0.len(),
                i <= ics0.len(),
                forall|k: int|
                    0 <= k < i ==> ic_flushed(
                        #[trigger] ics0[k],
                        self.interceptors@[k],
                        table@,
                    ),
                forall|k: int| i <= k < ics0.len() ==> self.interceptors@[k] == ics0[k],
                forall|k: int|
                    0 <= k < self.interceptors@.len() ==> ic_wf(#[trigger] self.interceptors@[k]),
            decreases ics0.len() - i,
        {
            let ghost before = self.interceptors@;
            let ic = self.interceptors.remove(i);
            match ic {
                Interceptor::Cache(mut cm) => {
                    let ghost cm0 = cm;
                    match cm.flush(table) {
                        Ok(_) => {
                            self.interceptors.insert(i, Interceptor::Cache(cm));
                        },
                        Err(e) => {
                            self.interceptors.insert(i, Interceptor::Cache(cm));
                            proof {
                                assert(ic_flush_blocked(ics0[i as int], table@));
                            }
                            return Err(e);
                        },
                    }
                },
            }
            proof {
                assert(self.interceptors@ =~= before.update(i as int, self.interceptors@[
                    i as int]));
            }
            i = i + 1;
        }
        Ok(())
    }
}

} // verus!
