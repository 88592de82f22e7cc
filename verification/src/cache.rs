//! The cache of extraction results: one entry per source file, valid for
//! one version of the file's content.

use crate::index::{hash_name, name_hash};
use crate::symbol::{Symbol, SymbolModel};
use crate::text::push_char;
use vstd::prelude::*;
use vstd::string::*;

verus! {

/// The symbols of a file, with the version of the content they were
/// extracted from.
#[derive(Debug)]
pub struct CacheEntry {
    /// The blob identifier of the content, or a hash of it.
    pub blob_id: String,
    pub symbols: Vec<Symbol>,
}

/// The mathematical value of a [`CacheEntry`].
pub struct CacheEntryModel {
    pub blob_id: Seq<char>,
    pub symbols: Seq<SymbolModel>,
}

impl View for CacheEntry {
    type V = CacheEntryModel;

    open spec fn view(&self) -> CacheEntryModel {
        CacheEntryModel { blob_id: self.blob_id@, symbols: self.symbols.deep_view() }
    }
}

/// Where the entries of a project's files are kept.
#[derive(Debug)]
pub struct CacheManager {
    pub cache_dir: String,
}

/// The character of one hexadecimal digit.
pub open spec fn hex_char(d: nat) -> char {
    if d == 0 {
        '0'
    } else if d == 1 {
        '1'
    } else if d == 2 {
        '2'
    } else if d == 3 {
        '3'
    } else if d == 4 {
        '4'
    } else if d == 5 {
        '5'
    } else if d == 6 {
        '6'
    } else if d == 7 {
        '7'
    } else if d == 8 {
        '8'
    } else if d == 9 {
        '9'
    } else if d == 10 {
        'a'
    } else if d == 11 {
        'b'
    } else if d == 12 {
        'c'
    } else if d == 13 {
        'd'
    } else if d == 14 {
        'e'
    } else {
        'f'
    }
}

/// The hexadecimal digits of `n` in lowercase, most significant first,
/// without leading zeros.
pub open spec fn hex_digits(n: nat) -> Seq<char>
    decreases n,
{
    if n < 16 {
        seq![hex_char(n)]
    } else {
        hex_digits(n / 16).push(hex_char(n % 16))
    }
}

/// The character of the hexadecimal digit `d`.
fn hex_digit(d: u64) -> (r: char)
    requires
        d < 16,
    ensures
        r == hex_char(d as nat),
{
    if d == 0 {
        '0'
    } else if d == 1 {
        '1'
    } else if d == 2 {
        '2'
    } else if d == 3 {
        '3'
    } else if d == 4 {
        '4'
    } else if d == 5 {
        '5'
    } else if d == 6 {
        '6'
    } else if d == 7 {
        '7'
    } else if d == 8 {
        '8'
    } else if d == 9 {
        '9'
    } else if d == 10 {
        'a'
    } else if d == 11 {
        'b'
    } else if d == 12 {
        'c'
    } else if d == 13 {
        'd'
    } else if d == 14 {
        'e'
    } else {
        'f'
    }
}

/// The number in lowercase hexadecimal digits, most significant first, with
/// no prefix, padding or leading zero.
pub(crate) fn hex_string(n: u64) -> (r: String)
    ensures
        r@ == hex_digits(n as nat),
    decreases n,
{
    let mut out = if n < 16 {
        String::new()
    } else {
        hex_string(n / 16)
    };
    push_char(&mut out, hex_digit(n % 16));
    assert(n < 16 ==> out@ =~= seq![hex_char(n as nat)]);
    out
}

/// The name of the file that holds the entry of the source file at `path`:
/// the hash of the path in hexadecimal digits.
pub open spec fn entry_name(path: Seq<char>) -> Seq<char> {
    hex_digits(name_hash(path) as nat) + ".bin"@
}

/// What a cache gives for content with the identifier `blob_id`, given
/// what it holds for the file: the symbols of an entry that was made from
/// that content, else nothing.
pub open spec fn cached(stored: Option<CacheEntryModel>, blob_id: Seq<char>) -> Option<
    Seq<SymbolModel>,
> {
    match stored {
        Some(entry) => if entry.blob_id == blob_id {
            Some(entry.symbols)
        } else {
            None
        },
        None => None,
    }
}

/// The view of an entry that may be missing.
pub open spec fn entry_view(stored: Option<CacheEntry>) -> Option<CacheEntryModel> {
    match stored {
        Some(entry) => Some(entry@),
        None => None,
    }
}

impl CacheEntry {
    pub fn new(blob_id: String, symbols: Vec<Symbol>) -> (r: CacheEntry)
        ensures
            r@ == (CacheEntryModel { blob_id: blob_id@, symbols: symbols.deep_view() }),
    {
        CacheEntry { blob_id, symbols }
    }

    /// The symbols of the entry, if it was made from the content with the
    /// identifier `blob_id`.
    pub fn symbols_for(self, blob_id: &str) -> (r: Option<Vec<Symbol>>)
        ensures
            r is Some <==> self@.blob_id == blob_id@,
            r is Some ==> r.unwrap().deep_view() == self@.symbols,
    {
        if crate::text::same_text(self.blob_id.as_str(), blob_id) {
            Some(self.symbols)
        } else {
            None
        }
    }
}

impl CacheManager {
    /// The cache of the project at `project_path`: it lies in the
    /// directory `.gossiphs/cache` below the project.
    pub fn new(project_path: &str) -> (r: CacheManager)
        ensures
            r.cache_dir@ == project_path@ + "/.gossiphs/cache"@,
    {
        let mut cache_dir = String::from_str(project_path);
        cache_dir.append("/.gossiphs/cache");
        CacheManager { cache_dir }
    }

    /// The path of the file that holds the entry of the source file at
    /// `file_path`.
    pub fn get_entry_path(&self, file_path: &str) -> (r: String)
        ensures
            r@ == self.cache_dir@ + "/"@ + entry_name(file_path@),
    {
        let mut path = self.cache_dir.clone();
        path.append("/");
        path.append(hex_string(hash_name(file_path)).as_str());
        path.append(".bin");
        assert(path@ =~= self.cache_dir@ + "/"@ + entry_name(file_path@));
        path
    }

    /// The cached symbols of a file whose content has the identifier
    /// `blob_id`, given what the file's entry holds: nothing where there
    /// is no entry that can be read, or where the entry was made from
    /// other content.
    pub fn get(stored: Option<CacheEntry>, blob_id: &str) -> (r: Option<Vec<Symbol>>)
        ensures
            r is Some <==> cached(entry_view(stored), blob_id@) is Some,
            r is Some ==> r.unwrap().deep_view() == cached(entry_view(stored), blob_id@).unwrap(),
    {
        match stored {
            Some(entry) => entry.symbols_for(blob_id),
            None => None,
        }
    }

    /// The entry to store for a file whose content has the identifier
    /// `blob_id`.
    pub fn set(blob_id: &str, symbols: Vec<Symbol>) -> (r: CacheEntry)
        ensures
            r@ == (CacheEntryModel { blob_id: blob_id@, symbols: symbols.deep_view() }),
    {
        CacheEntry::new(String::from_str(blob_id), symbols)
    }
}

} // verus!
