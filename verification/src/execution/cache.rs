//! The cache key of a task, and what a cache lookup means for a run.
//!
//! The key is the SHA-256 digest, in lowercase hexadecimal, of the task's
//! name, command, working directory, environment and input files. The
//! environment is taken in ascending order of its keys and the files that a
//! pattern matched in ascending order of their paths, so that neither the
//! order of the environment nor the order in which the files were listed
//! changes the key.

use vstd::prelude::*;
use vstd::utf8::encode_utf8;
use crate::config::Task;
use crate::db::cache::{is_alive, ttl_seconds, CacheEntry, CacheTable};
use crate::order::{lemma_sorted_set, sorted_set, sorted_unique};
use crate::text::{
    chars_contains, chars_starts_with, from_chars, has_prefix, has_substring, str_eq, strs,
    to_chars,
};

verus! {

/// The SHA-256 digest of `data`, as the `sha2` crate computes it.
pub uninterp spec fn sha256_digest(data: Seq<u8>) -> Seq<u8>;

/// Hashes `data` with `sha2::Sha256`, through `Digest::digest`: the digest
/// of the whole input, 32 bytes long.
#[verifier::external_body]
fn sha256(data: &Vec<u8>) -> (digest: Vec<u8>)
    ensures
        digest@ == sha256_digest(data@),
        digest@.len() == 32,
{
    <sha2::Sha256 as sha2::Digest>::digest(data.as_slice()).to_vec()
}

/// The lowercase hexadecimal digit of a value below 16.
pub open spec fn hex_digit(nibble: int) -> char {
    seq!['0', '1', '2', '3', '4', '5', '6', '7', '8', '9', 'a', 'b', 'c', 'd', 'e', 'f'][nibble]
}

/// Two lowercase hexadecimal digits for each byte, the high half first.
pub open spec fn hex_lower(data: Seq<u8>) -> Seq<char> {
    Seq::new(
        2 * data.len(),
        |i: int|
            if i % 2 == 0 {
                hex_digit(data[i / 2] as int / 16)
            } else {
                hex_digit(data[i / 2] as int % 16)
            },
    )
}

/// Writes `data` in hexadecimal with `hex::encode`: two lowercase digits
/// for each byte, in order.
#[verifier::external_body]
fn hex_encode(data: &Vec<u8>) -> (text: String)
    ensures
        text@ == hex_lower(data@),
{
    hex::encode(data)
}

/// A file that an input pattern of a task matched: its path, and its
/// content unless it could not be read.
#[derive(Debug, Clone)]
pub struct InputFile {
    pub path: String,
    pub content: Option<Vec<u8>>,
}

/// A key with the bytes that are hashed after it.
pub struct HashEntry {
    pub key: String,
    pub value: Vec<u8>,
}

/// The keys of `entries`, in order.
pub open spec fn entry_keys(entries: Seq<HashEntry>) -> Seq<Seq<char>> {
    Seq::new(entries.len(), |i: int| entries[i].key@)
}

/// The values of `entries`, in order.
pub open spec fn entry_values(entries: Seq<HashEntry>) -> Seq<Seq<u8>> {
    Seq::new(entries.len(), |i: int| entries[i].value@)
}

/// The position at which `key` stands first in `keys`.
pub open spec fn first_index(keys: Seq<Seq<char>>, key: Seq<char>) -> int {
    choose|i: int|
        0 <= i < keys.len() && keys[i] == key && forall|j: int| 0 <= j < i ==> keys[j] != key
}

/// For each key of `order`, in order: the key's UTF-8 bytes, then the value
/// that stands with the key's first occurrence in `keys`.
pub open spec fn keyed_bytes(
    keys: Seq<Seq<char>>,
    values: Seq<Seq<u8>>,
    order: Seq<Seq<char>>,
) -> Seq<u8>
    decreases order.len(),
{
    if order.len() == 0 {
        Seq::empty()
    } else {
        keyed_bytes(keys, values, order.drop_last()) + encode_utf8(order.last())
            + values[first_index(keys, order.last())]
    }
}

/// The bytes that stand for a list of keyed values in the hash: the keys
/// in ascending order, each once, each followed by its value.
pub open spec fn sorted_bytes(keys: Seq<Seq<char>>, values: Seq<Seq<u8>>) -> Seq<u8> {
    keyed_bytes(keys, values, sorted_set(keys))
}

/// The environment of a task as keys and hashed values.
pub open spec fn env_keys(env: Seq<(Seq<char>, Seq<char>)>) -> Seq<Seq<char>> {
    Seq::new(env.len(), |i: int| env[i].0)
}

/// The values of an environment, as UTF-8 bytes.
pub open spec fn env_values(env: Seq<(Seq<char>, Seq<char>)>) -> Seq<Seq<u8>> {
    Seq::new(env.len(), |i: int| encode_utf8(env[i].1))
}

/// The paths of the given files.
pub open spec fn file_paths(files: Seq<InputFile>) -> Seq<Seq<char>> {
    Seq::new(files.len(), |i: int| files[i].path@)
}

/// The contents of the given files; nothing for a file that could not be
/// read.
pub open spec fn file_contents(files: Seq<InputFile>) -> Seq<Seq<u8>> {
    Seq::new(
        files.len(),
        |i: int|
            match files[i].content {
                Some(bytes) => bytes@,
                None => Seq::empty(),
            },
    )
}

/// The bytes that stand in the hash for the files of each pattern, pattern
/// after pattern.
pub open spec fn matches_bytes(matches: Seq<Vec<InputFile>>) -> Seq<u8>
    decreases matches.len(),
{
    if matches.len() == 0 {
        Seq::empty()
    } else {
        matches_bytes(matches.drop_last()) + sorted_bytes(
            file_paths(matches.last()@),
            file_contents(matches.last()@),
        )
    }
}

/// The bytes of an optional text; none where there is no text.
pub open spec fn optional_bytes(text: Option<Seq<char>>) -> Seq<u8> {
    match text {
        Some(t) => encode_utf8(t),
        None => Seq::empty(),
    }
}

/// What is hashed for a task: its name, its command, its working directory
/// if it has one, its environment, and the files that each of its watch and
/// input patterns matched.
pub open spec fn cache_preimage(
    task_name: Seq<char>,
    cmd: Seq<char>,
    cwd: Option<Seq<char>>,
    env: Seq<(Seq<char>, Seq<char>)>,
    matches: Seq<Vec<InputFile>>,
) -> Seq<u8> {
    encode_utf8(task_name) + encode_utf8(cmd) + optional_bytes(cwd) + sorted_bytes(
        env_keys(env),
        env_values(env),
    ) + matches_bytes(matches)
}

/// The cache key of a task with the given inputs.
pub open spec fn cache_key(
    task_name: Seq<char>,
    cmd: Seq<char>,
    cwd: Option<Seq<char>>,
    env: Seq<(Seq<char>, Seq<char>)>,
    matches: Seq<Vec<InputFile>>,
) -> Seq<char> {
    hex_lower(sha256_digest(cache_preimage(task_name, cmd, cwd, env, matches)))
}

/// Appends `src` to `dst`.
fn append_bytes(dst: &mut Vec<u8>, src: &[u8])
    ensures
        final(dst)@ == old(dst)@ + src@,
{
    let mut i: usize = 0;
    while i < src.len()
        invariant
            i <= src@.len(),
            dst@ == old(dst)@ + src@.subrange(0, i as int),
        decreases src.len() - i,
    {
        dst.push(src[i]);
        assert(src@.subrange(0, i + 1) =~= src@.subrange(0, i as int).push(src@[i as int]));
        i += 1;
    }
    assert(src@.subrange(0, src@.len() as int) =~= src@);
}

/// The position at which `key` stands first among the keys of `entries`.
fn find_first(entries: &Vec<HashEntry>, key: &str) -> (r: Option<usize>)
    ensures
        match r {
            Some(i) => i < entries@.len() && i == first_index(entry_keys(entries@), key@),
            None => !entry_keys(entries@).contains(key@),
        },
{
    let mut i: usize = 0;
    while i < entries.len()
        invariant
            i <= entries@.len(),
            forall|j: int| 0 <= j < i ==> entry_keys(entries@)[j] != key@,
        decreases entries.len() - i,
    {
        if str_eq(entries[i].key.as_str(), key) {
            proof {
                let keys = entry_keys(entries@);
                assert(keys[i as int] == key@);
                let f = first_index(keys, key@);
                assert(0 <= f < keys.len() && keys[f] == key@ && forall|j: int|
                    0 <= j < f ==> keys[j] != key@);
                assert(f == i);
            }
            return Some(i);
        }
        i += 1;
    }
    None
}

/// Appends to `out` what stands in the hash for `entries`.
fn append_sorted(out: &mut Vec<u8>, entries: &Vec<HashEntry>)
    ensures
        final(out)@ == old(out)@ + sorted_bytes(entry_keys(entries@), entry_values(entries@)),
{
    let ghost keys = entry_keys(entries@);
    let ghost values = entry_values(entries@);
    let mut names: Vec<String> = Vec::new();
    let mut i: usize = 0;
    while i < entries.len()
        invariant
            i <= entries@.len(),
            names@.len() == i,
            forall|j: int| 0 <= j < i ==> names@[j]@ == entries@[j].key@,
        decreases entries.len() - i,
    {
        names.push(entries[i].key.clone());
        i += 1;
    }
    assert(strs(names@) =~= keys);
    let order = sorted_unique(&names);
    let mut k: usize = 0;
    while k < order.len()
        invariant
            k <= order@.len(),
            keys == entry_keys(entries@),
            values == entry_values(entries@),
            forall|x: Seq<char>| strs(order@).contains(x) ==> keys.contains(x),
            out@ == old(out)@ + keyed_bytes(keys, values, strs(order@).subrange(0, k as int)),
        decreases order.len() - k,
    {
        proof {
            let next = strs(order@).subrange(0, k + 1);
            assert(next.drop_last() =~= strs(order@).subrange(0, k as int));
            assert(next.last() == order@[k as int]@);
            assert(strs(order@)[k as int] == order@[k as int]@);
            assert(strs(order@).contains(order@[k as int]@));
        }
        append_bytes(out, order[k].as_str().as_bytes());
        match find_first(entries, order[k].as_str()) {
            Some(at) => {
                append_bytes(out, entries[at].value.as_slice());
            },
            None => {
                proof {
                    assert(false);
                }
            },
        }
        k += 1;
    }
    assert(strs(order@).subrange(0, order@.len() as int) =~= strs(order@));
}

/// The cache key of `task` under `task_name`, where `matches` holds, for
/// each watch pattern and then each input pattern of the task, the files
/// that the pattern matched. Directories are left out of `matches`; a file
/// that could not be read stands there without content.
pub fn calculate_input_hash(task: &Task, task_name: &str, matches: &Vec<Vec<InputFile>>) -> (key:
    String)
    ensures
        key@ == cache_key(task_name@, task@.cmd, task@.cwd, task@.env, matches@),
        key@.len() == 64,
{
    let mut data: Vec<u8> = Vec::new();
    append_bytes(&mut data, task_name.as_bytes());
    append_bytes(&mut data, task.cmd.as_str().as_bytes());
    match &task.cwd {
        Some(cwd) => {
            append_bytes(&mut data, cwd.as_str().as_bytes());
        },
        None => {},
    }
    let mut env: Vec<HashEntry> = Vec::new();
    let mut e: usize = 0;
    while e < task.env.len()
        invariant
            e <= task.env@.len(),
            env@.len() == e,
            forall|j: int|
                0 <= j < e ==> env@[j].key@ == task.env@[j].0@ && env@[j].value@ == encode_utf8(
                    task.env@[j].1@,
                ),
        decreases task.env.len() - e,
    {
        let mut value: Vec<u8> = Vec::new();
        append_bytes(&mut value, task.env[e].1.as_str().as_bytes());
        env.push(HashEntry { key: task.env[e].0.clone(), value });
        e += 1;
    }
    proof {
        assert(entry_keys(env@) =~= env_keys(task@.env));
        assert(entry_values(env@) =~= env_values(task@.env));
    }
    append_sorted(&mut data, &env);
    let ghost head = data@;
    let mut p: usize = 0;
    while p < matches.len()
        invariant
            p <= matches@.len(),
            data@ == head + matches_bytes(matches@.subrange(0, p as int)),
        decreases matches.len() - p,
    {
        let files = &matches[p];
        let mut entries: Vec<HashEntry> = Vec::new();
        let mut f: usize = 0;
        while f < files.len()
            invariant
                f <= files@.len(),
                entries@.len() == f,
                forall|j: int| 0 <= j < f ==> (#[trigger] entries@[j]).key@ == files@[j].path@,
                forall|j: int|
                    0 <= j < f ==> (#[trigger] entries@[j]).value@ == file_contents(files@)[j],
            decreases files.len() - f,
        {
            let mut value: Vec<u8> = Vec::new();
            match &files[f].content {
                Some(bytes) => {
                    append_bytes(&mut value, bytes.as_slice());
                },
                None => {},
            }
            assert(value@ =~= file_contents(files@)[f as int]);
            let ghost before = entries@;
            let key = files[f].path.clone();
            entries.push(HashEntry { key, value });
            proof {
                assert forall|j: int| 0 <= j < f + 1 implies (#[trigger] entries@[j]).key@
                    == files@[j].path@ by {
                    if j < f {
                        assert(entries@[j] == before[j]);
                    }
                }
                assert forall|j: int| 0 <= j < f + 1 implies (#[trigger] entries@[j]).value@
                    == file_contents(files@)[j] by {
                    if j < f {
                        assert(entries@[j] == before[j]);
                    }
                }
            }
            f += 1;
        }
        proof {
            assert(entry_keys(entries@) =~= file_paths(files@));
            assert(entry_values(entries@) =~= file_contents(files@));
            let next = matches@.subrange(0, p + 1);
            assert(next.drop_last() =~= matches@.subrange(0, p as int));
            assert(next.last() == matches@[p as int]);
        }
        append_sorted(&mut data, &entries);
        p += 1;
    }
    proof {
        assert(matches@.subrange(0, matches@.len() as int) =~= matches@);
        assert(data@ =~= cache_preimage(task_name@, task@.cmd, task@.cwd, task@.env, matches@));
    }
    let digest = sha256(&data);
    hex_encode(&digest)
}

/// A pattern that stands for itself when files are looked up: one that
/// begins with `/` or holds a `:`.
pub open spec fn is_absolute_pattern(pattern: Seq<char>) -> bool {
    has_prefix(pattern, seq!['/']) || has_substring(pattern, seq![':'])
}

/// The glob under which the files of an input pattern are looked up: the
/// pattern itself where it is absolute, else the pattern below `base_dir`.
pub fn resolve_input_pattern(pattern: &str, base_dir: &str) -> (out: String)
    ensures
        out@ == if is_absolute_pattern(pattern@) {
            pattern@
        } else {
            base_dir@ + seq!['/'] + pattern@
        },
{
    let chars = to_chars(pattern);
    let mut slash: Vec<char> = Vec::new();
    slash.push('/');
    let mut colon: Vec<char> = Vec::new();
    colon.push(':');
    assert(slash@ =~= seq!['/']);
    assert(colon@ =~= seq![':']);
    if chars_starts_with(&chars, &slash) || chars_contains(&chars, &colon) {
        pattern.to_owned()
    } else {
        let mut all = to_chars(base_dir);
        all.push('/');
        let mut i: usize = 0;
        while i < chars.len()
            invariant
                i <= chars@.len(),
                all@ == base_dir@ + seq!['/'] + chars@.subrange(0, i as int),
            decreases chars.len() - i,
        {
            all.push(chars[i]);
            assert(chars@.subrange(0, i + 1) =~= chars@.subrange(0, i as int).push(chars@[i as int]));
            i += 1;
        }
        assert(chars@.subrange(0, chars@.len() as int) =~= chars@);
        from_chars(&all)
    }
}

/// The patterns whose files are hashed for a task: its watch patterns, then
/// its input patterns.
pub fn input_patterns(task: &Task) -> (out: Vec<String>)
    ensures
        strs(out@) == task@.watch + task@.inputs,
{
    let mut out: Vec<String> = Vec::new();
    let mut i: usize = 0;
    while i < task.watch.len()
        invariant
            i <= task.watch@.len(),
            out@.len() == i,
            forall|k: int| 0 <= k < i ==> out@[k]@ == task.watch@[k]@,
        decreases task.watch.len() - i,
    {
        out.push(task.watch[i].clone());
        i += 1;
    }
    let mut j: usize = 0;
    while j < task.inputs.len()
        invariant
            j <= task.inputs@.len(),
            out@.len() == task.watch@.len() + j,
            forall|k: int| 0 <= k < task.watch@.len() ==> out@[k]@ == task.watch@[k]@,
            forall|k: int| 0 <= k < j ==> out@[task.watch@.len() + k]@ == task.inputs@[k]@,
        decreases task.inputs.len() - j,
    {
        out.push(task.inputs[j].clone());
        j += 1;
    }
    assert(strs(out@) =~= task@.watch + task@.inputs);
    out
}

/// A task result found in the cache.
#[derive(Debug, Clone)]
pub struct CachedResult {
    pub status: String,
    pub duration_ms: Option<i64>,
}

impl CachedResult {
    /// Whether the cached run passed.
    pub fn is_success(&self) -> (r: bool)
        ensures
            r == (self.status@ == "passed"@),
    {
        str_eq(self.status.as_str(), "passed")
    }
}

/// The status under which a run is stored in the cache.
pub fn status_text(success: bool) -> (s: &'static str)
    ensures
        s@ == if success {
            "passed"@
        } else {
            "failed"@
        },
{
    if success {
        "passed"
    } else {
        "failed"
    }
}

/// Looks results up in the cache table and stores them there, under the
/// cache key of the task, unless caching is off.
#[derive(Debug, Clone, Copy)]
pub struct CacheManager {
    pub ttl_hours: u32,
    pub enabled: bool,
}

impl CacheManager {
    pub fn new(ttl_hours: u32, enabled: bool) -> (m: CacheManager)
        ensures
            m.ttl_hours == ttl_hours,
            m.enabled == enabled,
    {
        CacheManager { ttl_hours, enabled }
    }

    /// The cache key under which `task` is looked up and stored; none
    /// where caching is off.
    pub fn key_for(&self, task: &Task, task_name: &str, matches: &Vec<Vec<InputFile>>) -> (r:
        Option<String>)
        ensures
            match r {
                Some(key) => self.enabled && key@ == cache_key(
                    task_name@,
                    task@.cmd,
                    task@.cwd,
                    task@.env,
                    matches@,
                ),
                None => !self.enabled,
            },
    {
        if self.enabled {
            Some(calculate_input_hash(task, task_name, matches))
        } else {
            None
        }
    }

    /// What the entry found under a cache key means at `now`: a result to
    /// skip the task for, where caching is on, there is an entry, and the
    /// entry is alive.
    pub fn judge(&self, entry: Option<&CacheEntry>, now: i64) -> (r: Option<CachedResult>)
        ensures
            match r {
                Some(cached) => self.enabled && entry is Some && is_alive(entry->0@, now)
                    && cached.status@ == entry->0@.status && cached.duration_ms
                    == entry->0@.duration_ms,
                None => !self.enabled || entry is None || !is_alive(entry->0@, now),
            },
    {
        if !self.enabled {
            return None;
        }
        match entry {
            Some(e) => {
                if e.is_alive_at(now) {
                    Some(CachedResult { status: e.status.clone(), duration_ms: e.duration_ms })
                } else {
                    None
                }
            },
            None => None,
        }
    }

    /// When a result stored at `now` expires: after the manager's
    /// lifetime. `None` where that time cannot be counted.
    pub fn expiry(&self, now: i64) -> (r: Option<i64>)
        ensures
            match r {
                Some(t) => t == now + ttl_seconds(self.ttl_hours),
                None => now + ttl_seconds(self.ttl_hours) > i64::MAX,
            },
    {
        now.checked_add(crate::db::cache::ttl_seconds_of(self.ttl_hours))
    }

    /// The cached result that lets a run skip `task`: the entry of the
    /// task's cache key, if caching is on, the table has the entry, and the
    /// entry is alive at `now`.
    pub fn check(
        &self,
        table: &CacheTable,
        task: &Task,
        task_name: &str,
        matches: &Vec<Vec<InputFile>>,
        now: i64,
    ) -> (r: Option<CachedResult>)
        requires
            table.wf(),
        ensures
            r is Some <==> self.enabled && table.fetched(
                task_name@,
                cache_key(task_name@, task@.cmd, task@.cwd, task@.env, matches@),
                now,
            ) is Some,
            r is Some ==> {
                let entry = table.fetched(
                    task_name@,
                    cache_key(task_name@, task@.cmd, task@.cwd, task@.env, matches@),
                    now,
                )->0;
                r->0.status@ == entry.status && r->0.duration_ms == entry.duration_ms
            },
    {
        if !self.enabled {
            return None;
        }
        let key = calculate_input_hash(task, task_name, matches);
        match table.get_cache_entry(task_name, key.as_str(), now) {
            Some(entry) => Some(
                CachedResult { status: entry.status, duration_ms: entry.duration_ms },
            ),
            None => None,
        }
    }

    /// Stores the result of a run of `task` under its cache key, to live
    /// for the manager's lifetime from `now`; does nothing where caching is
    /// off.
    pub fn store(
        &self,
        table: &mut CacheTable,
        task: &Task,
        task_name: &str,
        matches: &Vec<Vec<InputFile>>,
        status: &str,
        duration_ms: i64,
        now: i64,
    )
        requires
            old(table).wf(),
            i64::MIN <= now + ttl_seconds(self.ttl_hours) <= i64::MAX,
            old(table).next_id < i64::MAX,
        ensures
            self.enabled ==> old(table).stored(
                final(table),
                task_name@,
                cache_key(task_name@, task@.cmd, task@.cwd, task@.env, matches@),
                status@,
                Some(duration_ms),
                self.ttl_hours,
                now,
            ),
            !self.enabled ==> *final(table) == *old(table),
    {
        if !self.enabled {
            return ;
        }
        let key = calculate_input_hash(task, task_name, matches);
        table.set_cache_entry(
            task_name,
            key.as_str(),
            status,
            Some(duration_ms),
            self.ttl_hours,
            now,
        );
    }

    /// Removes the cached results of `task_name`; returns how many there
    /// were.
    pub fn invalidate(&self, table: &mut CacheTable, task_name: &str) -> (count: u64)
        requires
            old(table).wf(),
        ensures
            count == old(table).rows().len() - final(table).rows().len(),
            final(table).rows() == old(table).rows().filter(
                |e: crate::db::cache::CacheEntryView| e.task_name != task_name@,
            ),
    {
        table.invalidate_cache(task_name)
    }

    /// Removes every cached result; returns how many there were.
    pub fn clear_all(&self, table: &mut CacheTable) -> (count: u64)
        ensures
            count == old(table).entries@.len(),
            final(table).entries@.len() == 0,
    {
        table.clear_all_cache()
    }
}

/// Two byte strings that differ stay different between the same
/// neighbours.
pub proof fn lemma_middle_differs(a: Seq<u8>, x: Seq<u8>, y: Seq<u8>, b: Seq<u8>)
    requires
        x != y,
    ensures
        a + x + b != a + y + b,
{
    if x.len() == y.len() {
        if forall|i: int| 0 <= i < x.len() ==> x[i] == y[i] {
            assert(x =~= y);
        }
        let i = choose|i: int| 0 <= i < x.len() && x[i] != y[i];
        assert((a + x + b)[a.len() + i] == x[i]);
        assert((a + y + b)[a.len() + i] == y[i]);
    } else {
        assert((a + x + b).len() != (a + y + b).len());
    }
}

/// Different texts have different UTF-8 bytes.
pub proof fn lemma_utf8_injective(s: Seq<char>, t: Seq<char>)
    requires
        s != t,
    ensures
        encode_utf8(s) != encode_utf8(t),
{
    vstd::utf8::encode_utf8_decode_utf8(s);
    vstd::utf8::encode_utf8_decode_utf8(t);
}

/// Among keys without repetition, a key stands first where it stands.
proof fn lemma_first_index_unique(keys: Seq<Seq<char>>, j: int)
    requires
        keys.no_duplicates(),
        0 <= j < keys.len(),
    ensures
        first_index(keys, keys[j]) == j,
{
    let key = keys[j];
    assert(0 <= j < keys.len() && keys[j] == key && forall|k: int| 0 <= k < j ==> keys[k] != key);
    let f = first_index(keys, key);
    assert(0 <= f < keys.len() && keys[f] == key);
}

/// Values that agree wherever `order` looks give the same bytes.
proof fn lemma_keyed_same(
    keys: Seq<Seq<char>>,
    v1: Seq<Seq<u8>>,
    v2: Seq<Seq<u8>>,
    i: int,
    order: Seq<Seq<char>>,
)
    requires
        keys.no_duplicates(),
        v1.len() == keys.len(),
        v2.len() == keys.len(),
        0 <= i < keys.len(),
        forall|j: int| 0 <= j < keys.len() && j != i ==> v1[j] == v2[j],
        forall|x: Seq<char>| order.contains(x) ==> keys.contains(x),
        !order.contains(keys[i]),
    ensures
        keyed_bytes(keys, v1, order) == keyed_bytes(keys, v2, order),
    decreases order.len(),
{
    if order.len() > 0 {
        let head = order.drop_last();
        let last = order.last();
        assert(order[order.len() - 1] == last);
        assert(order.contains(last));
        assert forall|x: Seq<char>| head.contains(x) implies keys.contains(x) by {
            let k = head.index_of(x);
            assert(order[k] == x);
        }
        if head.contains(keys[i]) {
            let k = head.index_of(keys[i]);
            assert(order[k] == keys[i]);
        }
        lemma_keyed_same(keys, v1, v2, i, head);
        let j = keys.index_of(last);
        assert(keys[j] == last);
        lemma_first_index_unique(keys, j);
    }
}

/// Where one value changes, the bytes change in one place: between the
/// same bytes before and after stands the one value or the other.
proof fn lemma_keyed_split(
    keys: Seq<Seq<char>>,
    v1: Seq<Seq<u8>>,
    v2: Seq<Seq<u8>>,
    i: int,
    order: Seq<Seq<char>>,
) -> (parts: (Seq<u8>, Seq<u8>))
    requires
        keys.no_duplicates(),
        v1.len() == keys.len(),
        v2.len() == keys.len(),
        0 <= i < keys.len(),
        forall|j: int| 0 <= j < keys.len() && j != i ==> v1[j] == v2[j],
        forall|x: Seq<char>| order.contains(x) ==> keys.contains(x),
        order.no_duplicates(),
        order.contains(keys[i]),
    ensures
        keyed_bytes(keys, v1, order) == parts.0 + v1[i] + parts.1,
        keyed_bytes(keys, v2, order) == parts.0 + v2[i] + parts.1,
    decreases order.len(),
{
    let head = order.drop_last();
    let last = order.last();
    let at = order.index_of(keys[i]);
    assert(order[at] == keys[i]);
    assert(order[order.len() - 1] == last);
    assert(order.contains(last));
    assert forall|x: Seq<char>| head.contains(x) implies keys.contains(x) by {
        let k = head.index_of(x);
        assert(order[k] == x);
    }
    let j = keys.index_of(last);
    assert(keys[j] == last);
    lemma_first_index_unique(keys, j);
    if last == keys[i] {
        assert(j == i);
        if head.contains(keys[i]) {
            let k = head.index_of(keys[i]);
            assert(order[k] == keys[i]);
        }
        lemma_keyed_same(keys, v1, v2, i, head);
        let a = keyed_bytes(keys, v1, head) + encode_utf8(last);
        let b = Seq::<u8>::empty();
        assert(keyed_bytes(keys, v1, order) =~= a + v1[i] + b);
        assert(keyed_bytes(keys, v2, order) =~= a + v2[i] + b);
        (a, b)
    } else {
        assert(at < order.len() - 1);
        assert(head[at] == keys[i]);
        let inner = lemma_keyed_split(keys, v1, v2, i, head);
        assert(j != i);
        let b = inner.1 + encode_utf8(last) + v1[j];
        assert(keyed_bytes(keys, v1, order) =~= inner.0 + v1[i] + b);
        assert(keyed_bytes(keys, v2, order) =~= inner.0 + v2[i] + b);
        (inner.0, b)
    }
}

/// Where one of the keyed values changes, the hashed bytes change in one
/// place.
proof fn lemma_sorted_split(keys: Seq<Seq<char>>, v1: Seq<Seq<u8>>, v2: Seq<Seq<u8>>, i: int) -> (parts:
    (Seq<u8>, Seq<u8>))
    requires
        keys.no_duplicates(),
        v1.len() == keys.len(),
        v2.len() == keys.len(),
        0 <= i < keys.len(),
        forall|j: int| 0 <= j < keys.len() && j != i ==> v1[j] == v2[j],
    ensures
        sorted_bytes(keys, v1) == parts.0 + v1[i] + parts.1,
        sorted_bytes(keys, v2) == parts.0 + v2[i] + parts.1,
{
    lemma_sorted_set(keys);
    crate::order::lemma_sorted_no_duplicates(sorted_set(keys));
    assert(keys.contains(keys[i]));
    lemma_keyed_split(keys, v1, v2, i, sorted_set(keys))
}

/// Another command gives another preimage.
pub proof fn lemma_command_changes_preimage(
    task_name: Seq<char>,
    cmd: Seq<char>,
    other_cmd: Seq<char>,
    cwd: Option<Seq<char>>,
    env: Seq<(Seq<char>, Seq<char>)>,
    matches: Seq<Vec<InputFile>>,
)
    requires
        cmd != other_cmd,
    ensures
        cache_preimage(task_name, cmd, cwd, env, matches) != cache_preimage(
            task_name,
            other_cmd,
            cwd,
            env,
            matches,
        ),
{
    let a = encode_utf8(task_name);
    let b = optional_bytes(cwd) + sorted_bytes(env_keys(env), env_values(env)) + matches_bytes(
        matches,
    );
    lemma_utf8_injective(cmd, other_cmd);
    lemma_middle_differs(a, encode_utf8(cmd), encode_utf8(other_cmd), b);
    assert(cache_preimage(task_name, cmd, cwd, env, matches) =~= a + encode_utf8(cmd) + b);
    assert(cache_preimage(task_name, other_cmd, cwd, env, matches) =~= a + encode_utf8(other_cmd)
        + b);
}

/// Another value for one key of the environment gives another preimage.
pub proof fn lemma_env_value_changes_preimage(
    task_name: Seq<char>,
    cmd: Seq<char>,
    cwd: Option<Seq<char>>,
    env: Seq<(Seq<char>, Seq<char>)>,
    other_env: Seq<(Seq<char>, Seq<char>)>,
    matches: Seq<Vec<InputFile>>,
    i: int,
)
    requires
        env_keys(env).no_duplicates(),
        env_keys(other_env) == env_keys(env),
        0 <= i < env.len(),
        env[i].1 != other_env[i].1,
        forall|j: int| 0 <= j < env.len() && j != i ==> env[j].1 == other_env[j].1,
    ensures
        cache_preimage(task_name, cmd, cwd, env, matches) != cache_preimage(
            task_name,
            cmd,
            cwd,
            other_env,
            matches,
        ),
{
    let keys = env_keys(env);
    let v1 = env_values(env);
    let v2 = env_values(other_env);
    assert(other_env.len() == env.len()) by {
        assert(env_keys(other_env).len() == env_keys(env).len());
    }
    let parts = lemma_sorted_split(keys, v1, v2, i);
    lemma_utf8_injective(env[i].1, other_env[i].1);
    let a = encode_utf8(task_name) + encode_utf8(cmd) + optional_bytes(cwd) + parts.0;
    let b = parts.1 + matches_bytes(matches);
    lemma_middle_differs(a, v1[i], v2[i], b);
    assert(cache_preimage(task_name, cmd, cwd, env, matches) =~= a + v1[i] + b);
    assert(cache_preimage(task_name, cmd, cwd, other_env, matches) =~= a + v2[i] + b);
}

/// Where the content of one file changes, the bytes of the files change in
/// one place.
proof fn lemma_matches_split(
    matches: Seq<Vec<InputFile>>,
    other: Seq<Vec<InputFile>>,
    p: int,
    f: int,
) -> (parts: (Seq<u8>, Seq<u8>))
    requires
        other.len() == matches.len(),
        0 <= p < matches.len(),
        forall|q: int| 0 <= q < matches.len() && q != p ==> matches[q] == other[q],
        file_paths(other[p]@) == file_paths(matches[p]@),
        file_paths(matches[p]@).no_duplicates(),
        0 <= f < matches[p]@.len(),
        forall|g: int|
            0 <= g < matches[p]@.len() && g != f ==> file_contents(matches[p]@)[g]
                == file_contents(other[p]@)[g],
    ensures
        matches_bytes(matches) == parts.0 + file_contents(matches[p]@)[f] + parts.1,
        matches_bytes(other) == parts.0 + file_contents(other[p]@)[f] + parts.1,
    decreases matches.len(),
{
    let head = matches.drop_last();
    let other_head = other.drop_last();
    let last = matches.len() - 1;
    if p == last {
        assert(head =~= other_head) by {
            assert forall|q: int| 0 <= q < head.len() implies head[q] == other_head[q] by {
                assert(matches[q] == other[q]);
            }
        }
        let paths = file_paths(matches[p]@);
        let c1 = file_contents(matches[p]@);
        let c2 = file_contents(other[p]@);
        assert(other[p]@.len() == matches[p]@.len()) by {
            assert(file_paths(other[p]@).len() == file_paths(matches[p]@).len());
        }
        let inner = lemma_sorted_split(paths, c1, c2, f);
        let a = matches_bytes(head) + inner.0;
        assert(matches_bytes(matches) =~= a + c1[f] + inner.1);
        assert(matches_bytes(other) =~= a + c2[f] + inner.1);
        (a, inner.1)
    } else {
        assert(matches[last] == other[last]);
        assert forall|q: int| 0 <= q < head.len() && q != p implies head[q] == other_head[q] by {
            assert(matches[q] == other[q]);
        }
        assert(head[p] == matches[p] && other_head[p] == other[p]);
        let inner = lemma_matches_split(head, other_head, p, f);
        let tail = sorted_bytes(file_paths(matches[last]@), file_contents(matches[last]@));
        let b = inner.1 + tail;
        assert(matches_bytes(matches) =~= inner.0 + file_contents(matches[p]@)[f] + b);
        assert(matches_bytes(other) =~= inner.0 + file_contents(other[p]@)[f] + b);
        (inner.0, b)
    }
}

/// Another content for one input file gives another preimage.
pub proof fn lemma_file_content_changes_preimage(
    task_name: Seq<char>,
    cmd: Seq<char>,
    cwd: Option<Seq<char>>,
    env: Seq<(Seq<char>, Seq<char>)>,
    matches: Seq<Vec<InputFile>>,
    other: Seq<Vec<InputFile>>,
    p: int,
    f: int,
)
    requires
        other.len() == matches.len(),
        0 <= p < matches.len(),
        forall|q: int| 0 <= q < matches.len() && q != p ==> matches[q] == other[q],
        file_paths(other[p]@) == file_paths(matches[p]@),
        file_paths(matches[p]@).no_duplicates(),
        0 <= f < matches[p]@.len(),
        file_contents(matches[p]@)[f] != file_contents(other[p]@)[f],
        forall|g: int|
            0 <= g < matches[p]@.len() && g != f ==> file_contents(matches[p]@)[g]
                == file_contents(other[p]@)[g],
    ensures
        cache_preimage(task_name, cmd, cwd, env, matches) != cache_preimage(
            task_name,
            cmd,
            cwd,
            env,
            other,
        ),
{
    let parts = lemma_matches_split(matches, other, p, f);
    let a = encode_utf8(task_name) + encode_utf8(cmd) + optional_bytes(cwd) + sorted_bytes(
        env_keys(env),
        env_values(env),
    ) + parts.0;
    let x = file_contents(matches[p]@)[f];
    let y = file_contents(other[p]@)[f];
    lemma_middle_differs(a, x, y, parts.1);
    assert(cache_preimage(task_name, cmd, cwd, env, matches) =~= a + x + parts.1);
    assert(cache_preimage(task_name, cmd, cwd, env, other) =~= a + y + parts.1);
}

} // verus!
