//! The cache of immutable Nix facts.
//!
//! Store paths never change after creation, so a path's NAR size and a fixed member set's union
//! closure size are valid forever. A warm, unchanged run reads every group size straight from
//! `groups` and asks the Nix store nothing.

use vstd::hash_map::StringHashMap;
use vstd::prelude::*;
use vstd::string::*;
use vstd::utf8::{encode_utf8, is_ascii_chars, is_ascii_chars_encode_utf8};

use crate::paths::{
    bytes_view, decode_lossy, file_name, file_name_of, join_path,
    law_a_file_lies_in_its_directory, lossy_text, parent, parent_of, path_joined, plain_directory,
    plain_name,
};
use crate::text::texts;

verus! {

/// The version of the layout of a cache.
pub const VERSION: u32 = 1;

// ---------------------------------------------------------------------------------------------
// Tables
// ---------------------------------------------------------------------------------------------

/// A table from texts to sizes that remembers its keys in the order in which they came.
pub struct SizeTable {
    keys: Vec<String>,
    map: StringHashMap<u64>,
}

impl View for SizeTable {
    type V = Map<Seq<char>, u64>;

    closed spec fn view(&self) -> Map<Seq<char>, u64> {
        self.map@
    }
}

impl SizeTable {
    /// The keys are those of the table, each of them once.
    #[verifier::type_invariant]
    spec fn consistent(self) -> bool {
        &&& texts(self.keys@).no_duplicates()
        &&& texts(self.keys@).to_set() == self.map@.dom()
    }

    /// A table without entries.
    pub fn new() -> (r: SizeTable)
        ensures
            r@ == Map::<Seq<char>, u64>::empty(),
    {
        let keys: Vec<String> = Vec::new();
        let map: StringHashMap<u64> = StringHashMap::new();
        assert(texts(keys@).to_set() =~= map@.dom());
        SizeTable { keys, map }
    }

    /// The size of a key.
    pub fn get(&self, key: &str) -> (r: Option<u64>)
        ensures
            match r {
                Some(n) => self@.contains_key(key@) && n == self@[key@],
                None => !self@.contains_key(key@),
            },
    {
        match self.map.get(key) {
            Some(n) => Some(*n),
            None => None,
        }
    }

    /// Sets the size of a key.
    pub fn insert(&mut self, key: String, size: u64)
        ensures
            final(self)@ == old(self)@.insert(key@, size),
    {
        let mut table = SizeTable::new();
        std::mem::swap(self, &mut table);
        proof {
            use_type_invariant(&table);
        }
        let SizeTable { mut keys, mut map } = table;
        let ghost k0 = texts(keys@);
        let ghost m0 = map@;
        let ghost k = key@;
        if !map.contains_key(key.as_str()) {
            keys.push(key.clone());
            proof {
                let k1 = texts(keys@);
                assert(k1 =~= k0.push(k));
                assert(!k0.contains(k)) by {
                    assert(!k0.to_set().contains(k));
                }
                assert(k1.no_duplicates());
                assert forall|x: Seq<char>| k1.to_set().contains(x) <==> (k0.to_set().contains(x)
                    || x == k) by {
                    if k0.contains(x) {
                        let i = choose|i: int| 0 <= i < k0.len() && k0[i] == x;
                        assert(k1[i] == x);
                    }
                    assert(k1[k1.len() - 1] == k);
                    if k1.contains(x) {
                        let i = choose|i: int| 0 <= i < k1.len() && k1[i] == x;
                        if i < k0.len() {
                            assert(k0[i] == x);
                        }
                    }
                }
            }
        }
        map.insert(key, size);
        assert(texts(keys@).to_set() =~= map@.dom());
        *self = SizeTable { keys, map };
    }

    /// The entries, in the order in which their keys came.
    pub fn entries(&self) -> (r: Vec<(String, u64)>)
        ensures
            texts(r@.map_values(|e: (String, u64)| e.0)).no_duplicates(),
            texts(r@.map_values(|e: (String, u64)| e.0)).to_set() == self@.dom(),
            forall|i: int| 0 <= i < r@.len() ==> self@[(#[trigger] r@[i]).0@] == r@[i].1,
    {
        proof {
            use_type_invariant(self);
        }
        let mut r: Vec<(String, u64)> = Vec::new();
        let mut i: usize = 0;
        while i < self.keys.len()
            invariant
                i <= self.keys@.len(),
                texts(self.keys@).to_set() == self.map@.dom(),
                r@.len() == i,
                forall|j: int| 0 <= j < i ==> (#[trigger] r@[j]).0@ == self.keys@[j]@,
                forall|j: int| 0 <= j < i ==> self.map@[(#[trigger] r@[j]).0@] == r@[j].1,
            decreases self.keys.len() - i,
        {
            let key = self.keys[i].clone();
            proof {
                assert(texts(self.keys@)[i as int] == key@);
                assert(texts(self.keys@).to_set().contains(key@));
            }
            let size: u64 = match self.map.get(key.as_str()) {
                Some(n) => *n,
                None => 0,
            };
            r.push((key, size));
            i = i + 1;
        }
        assert(texts(r@.map_values(|e: (String, u64)| e.0)) =~= texts(self.keys@));
        r
    }
}

// ---------------------------------------------------------------------------------------------
// The cache
// ---------------------------------------------------------------------------------------------

/// What is known of the store.
pub struct Cache {
    pub version: u32,
    /// Store path to its own NAR size (bytes).
    pub sizes: SizeTable,
    /// Member-set key (sorted store paths joined by line feeds) to its union closure size.
    pub groups: SizeTable,
}

/// The tables of a cache.
#[verifier::ext_equal]
pub struct CacheView {
    pub sizes: Map<Seq<char>, u64>,
    pub groups: Map<Seq<char>, u64>,
}

impl View for Cache {
    type V = CacheView;

    open spec fn view(&self) -> CacheView {
        CacheView { sizes: self.sizes@, groups: self.groups@ }
    }
}

/// A cache that knows nothing.
pub open spec fn blank() -> CacheView {
    CacheView { sizes: Map::empty(), groups: Map::empty() }
}

impl Cache {
    /// A cache that knows nothing.
    pub fn empty() -> (r: Cache)
        ensures
            r.version == VERSION,
            r@ == blank(),
    {
        Cache { version: VERSION, sizes: SizeTable::new(), groups: SizeTable::new() }
    }

    /// The cache to start from: the one that was read from its file, or an empty one where none
    /// could be read or where its version is another. A corrupt or half-written cache is never
    /// fatal.
    pub fn load(read: Option<Cache>) -> (r: Cache)
        ensures
            r.version == VERSION,
            r@ == (match read {
                Some(c) => if c.version == VERSION {
                    c@
                } else {
                    blank()
                },
                None => blank(),
            }),
    {
        match read {
            Some(c) => if c.version == VERSION {
                c
            } else {
                Cache::empty()
            },
            None => Cache::empty(),
        }
    }
}

// ---------------------------------------------------------------------------------------------
// Where it is kept
// ---------------------------------------------------------------------------------------------

/// The path of another file in the directory of `path`.
pub open spec fn sibling_of(path: Seq<u8>, name: Seq<u8>) -> Seq<u8> {
    if file_name_of(path) is Some && parent_of(path) is Some {
        path_joined(parent_of(path)->0, name)
    } else {
        path_joined(path, name)
    }
}

/// The path of the file of this name in the directory of `path`.
fn sibling(path: &[u8], name: &[u8]) -> (r: Vec<u8>)
    ensures
        r@ == sibling_of(path@, name@),
{
    match file_name(path) {
        Some(_) => match parent(path) {
            Some(dir) => join_path(dir.as_slice(), name),
            None => join_path(path, name),
        },
        None => join_path(path, name),
    }
}

/// The file that a cache is written to before it takes the place of the file at `path`, where
/// the name of the latter reads as `name`.
pub fn temp_file(path: &[u8], name: &str) -> (r: Vec<u8>)
    ensures
        r@ == sibling_of(path@, encode_utf8(name@ + ".tmp"@)),
{
    let temp = String::from_str(name).concat(".tmp");
    sibling(path, temp.as_str().as_bytes())
}

/// The file that the cache of `path` is written to before it takes the place of the latter.
pub fn temp_path(path: &[u8]) -> (r: Vec<u8>)
    ensures
        r@ == sibling_of(
            path@,
            encode_utf8(
                (match file_name_of(path@) {
                    Some(n) => lossy_text(n),
                    None => Seq::empty(),
                }) + ".tmp"@,
            ),
        ),
{
    let name = match file_name(path) {
        Some(n) => decode_lossy(n.as_slice()),
        None => String::new(),
    };
    temp_file(path, name.as_str())
}

/// Where the cache is kept, from the values of `XDG_CACHE_HOME` and `HOME`.
pub open spec fn cache_file(xdg: Option<Seq<u8>>, home: Option<Seq<u8>>) -> Seq<u8> {
    let base = if xdg is Some && xdg->0.len() > 0 {
        xdg->0
    } else {
        path_joined(
            match home {
                Some(h) => h,
                None => encode_utf8("."@),
            },
            encode_utf8(".cache"@),
        )
    };
    path_joined(path_joined(base, encode_utf8("gcan"@)), encode_utf8("cache.json"@))
}

/// `${XDG_CACHE_HOME:-$HOME/.cache}/gcan/cache.json`.
pub fn default_path(xdg: Option<Vec<u8>>, home: Option<Vec<u8>>) -> (r: Vec<u8>)
    ensures
        r@ == cache_file(bytes_view(xdg), bytes_view(home)),
{
    let given = match xdg {
        Some(x) => if x.len() > 0 {
            Some(x)
        } else {
            None
        },
        None => None,
    };
    let base = match given {
        Some(x) => x,
        None => match home {
            Some(h) => join_path(h.as_slice(), ".cache".as_bytes()),
            None => join_path(".".as_bytes(), ".cache".as_bytes()),
        },
    };
    let dir = join_path(base.as_slice(), "gcan".as_bytes());
    join_path(dir.as_slice(), "cache.json".as_bytes())
}

// ---------------------------------------------------------------------------------------------
// Laws
// ---------------------------------------------------------------------------------------------

/// A name of ASCII characters, none of which separates parts, neither starts nor ends with a
/// separator as bytes.
proof fn lemma_ends_of_name(name: Seq<char>)
    requires
        name.len() > 0,
        is_ascii_chars(name),
        forall|i: int| 0 <= i < name.len() ==> #[trigger] name[i] != '/',
    ensures
        encode_utf8(name).len() > 0,
        encode_utf8(name)[0] != 0x2f,
        encode_utf8(name).last() != 0x2f,
{
    is_ascii_chars_encode_utf8(name);
    assert(name[0] != '/' && name[name.len() - 1] != '/');
}

/// The cache is kept in `gcan/cache.json` under the cache directory that is set, and under `.cache`
/// in the home directory where none is set or the one that is set is empty, and in the current
/// directory where there is no home either.
pub proof fn law_where_the_cache_is(dir: Seq<u8>, home: Option<Seq<u8>>)
    requires
        plain_directory(dir),
    ensures
        ({
            let tail = seq![0x2fu8] + encode_utf8("gcan"@) + seq![0x2fu8] + encode_utf8(
                "cache.json"@,
            );
            let own = seq![0x2fu8] + encode_utf8(".cache"@) + tail;
            &&& cache_file(Some(dir), home) == dir + tail
            &&& cache_file(None, Some(dir)) == dir + own
            &&& cache_file(Some(Seq::empty()), Some(dir)) == dir + own
            &&& cache_file(None, None) == encode_utf8("."@) + own
            &&& cache_file(Some(Seq::empty()), None) == encode_utf8("."@) + own
        }),
{
    reveal_strlit("gcan");
    reveal_strlit("cache.json");
    reveal_strlit(".cache");
    reveal_strlit(".");
    let a = encode_utf8("gcan"@);
    let b = encode_utf8("cache.json"@);
    let c = encode_utf8(".cache"@);
    let d = encode_utf8("."@);
    lemma_ends_of_name("gcan"@);
    lemma_ends_of_name("cache.json"@);
    lemma_ends_of_name(".cache"@);
    lemma_ends_of_name("."@);
    let s = seq![0x2fu8];
    let tail = s + a + s + b;
    let own = s + c + tail;
    assert(path_joined(path_joined(dir, a), b) =~= dir + tail);
    assert(path_joined(dir, c).last() == c.last());
    assert(path_joined(path_joined(path_joined(dir, c), a), b) =~= dir + own);
    assert(path_joined(d, c).last() == c.last());
    assert(path_joined(path_joined(path_joined(d, c), a), b) =~= d + own);
}

/// The file that a cache is written to first lies in the directory of the file whose place it will
/// take, under the name of that file with `.tmp` behind it.
pub proof fn law_temporary_file_lies_beside(dir: Seq<u8>, name: Seq<u8>, temp: Seq<u8>)
    requires
        plain_directory(dir),
        plain_name(name),
        temp.len() > 0,
        temp[0] != 0x2f,
    ensures
        sibling_of(dir + seq![0x2fu8] + name, temp) == dir + seq![0x2fu8] + temp,
        file_name_of(dir) is None ==> sibling_of(dir, temp) == dir + seq![0x2fu8] + temp,
{
    law_a_file_lies_in_its_directory(dir, name);
    assert(dir.push(0x2fu8) + temp =~= dir + seq![0x2fu8] + temp);
}

/// That file is named as the other one reads, with `.tmp` behind it.
pub proof fn law_temporary_file_has_its_name(
    path: &[u8],
    temp: Vec<u8>,
    dir: Seq<u8>,
    name: Seq<u8>,
)
    requires
        call_ensures(temp_path, (path,), temp),
        plain_directory(dir),
        plain_name(name),
        path@ == dir + seq![0x2fu8] + name,
        encode_utf8(lossy_text(name) + ".tmp"@).len() > 0,
        encode_utf8(lossy_text(name) + ".tmp"@)[0] != 0x2f,
    ensures
        temp@ == dir + seq![0x2fu8] + encode_utf8(lossy_text(name) + ".tmp"@),
{
    law_a_file_lies_in_its_directory(dir, name);
    law_temporary_file_lies_beside(dir, name, encode_utf8(lossy_text(name) + ".tmp"@));
}

/// A cache is taken as it was read if its version is the present one, and else as if there were
/// none.
pub proof fn law_only_the_present_version_is_taken(c: Cache, read: Cache, none: Cache)
    requires
        call_ensures(Cache::load, (Some(c),), read),
        call_ensures(Cache::load, (None::<Cache>,), none),
    ensures
        c.version == 1 ==> read@ == c@,
        c.version != 1 ==> read@ == none@,
        none@.sizes == Map::<Seq<char>, u64>::empty(),
        none@.groups == Map::<Seq<char>, u64>::empty(),
        read.version == 1,
        none.version == 1,
{
}

/// A size that is put into a table is found there under its key, and changes no other.
pub proof fn law_tables_give_back_what_was_put_in(key: String, size: u64, other: Seq<char>)
    ensures
        forall|t: &mut SizeTable| #[trigger]
            call_ensures(SizeTable::insert, (t, key, size), ()) ==> {
                &&& final(t)@.contains_key(key@)
                &&& final(t)@[key@] == size
                &&& other != key@ ==> (final(t)@.contains_key(other) <==> t@.contains_key(other))
                &&& other != key@ && t@.contains_key(other) ==> final(t)@[other] == t@[other]
            },
        forall|t: SizeTable, shown: &str, found: Option<u64>| #[trigger]
            call_ensures(SizeTable::get, (&t, shown), found) ==> {
                &&& found is Some <==> t@.contains_key(shown@)
                &&& found matches Some(n) ==> n == t@[shown@]
            },
{
}

} // verus!
