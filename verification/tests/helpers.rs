use gossiphs::cache::{CacheEntry, CacheManager};
use gossiphs::index::{hash_name, NameIndex};
use gossiphs::order::{rank_desc, sort_names, str_le};
use gossiphs::symbol::{Point, RangeWrapper, Symbol};

fn zero_range() -> RangeWrapper {
    RangeWrapper {
        start_byte: 0,
        end_byte: 0,
        start_point: Point { row: 0, column: 0 },
        end_point: Point { row: 0, column: 0 },
    }
}

#[test]
fn ranking_is_descending_and_stable() {
    assert_eq!(rank_desc(&vec![3, 7, 3, 9, 7]), vec![3, 1, 4, 0, 2]);
    assert_eq!(rank_desc(&vec![1, 1, 1]), vec![0, 1, 2]);
    assert_eq!(rank_desc(&vec![1, 2, 3]), vec![2, 1, 0]);
    assert_eq!(rank_desc(&Vec::new()), Vec::<usize>::new());
    assert_eq!(rank_desc(&vec![usize::MAX, 0]), vec![0, 1]);
}

#[test]
fn names_sort_as_strings_do() {
    let names: Vec<String> =
        ["b", "a/b", "a", "B", "ab", "", "é", "z", "a.b"].iter().map(|s| String::from(*s)).collect();
    let mut expected = names.clone();
    expected.sort();
    assert_eq!(sort_names(names), expected);
    assert!(str_le("a", "b"));
    assert!(str_le("a", "a"));
    assert!(str_le("", "a"));
    assert!(!str_le("a", ""));
    assert!(str_le("a", "ab"));
    assert!(!str_le("b", "ab"));
    assert!(str_le("Z", "a"));
    assert!(str_le("z", "é"));
    assert!(str_le("é", "€"));
}

#[test]
fn a_name_index_holds_what_was_put_in() {
    let mut index = NameIndex::new();
    assert_eq!(index.get(&String::from("a")), None);
    index.insert(String::from("a"), 7);
    index.insert(String::from("b"), 9);
    assert_eq!(index.get(&String::from("a")), Some(7));
    assert_eq!(index.get(&String::from("b")), Some(9));
    assert_eq!(index.get(&String::from("ab")), None);
    assert!(index.contains_key(&String::from("b")));
    assert!(!index.contains_key(&String::from("")));
    index.insert(String::from("a"), 8);
    assert_eq!(index.get(&String::from("a")), Some(8));
    assert_eq!(index.get(&String::from("b")), Some(9));
}

#[test]
fn a_cache_entry_answers_for_its_blob_only() {
    let symbols = vec![Symbol::new_def(String::from("test.rs"), String::from("foo"), zero_range())];
    let entry = CacheManager::set("abc123456", symbols.clone());
    assert_eq!(entry.blob_id, "abc123456");
    let cached = CacheManager::get(Some(entry), "abc123456").unwrap();
    assert_eq!(cached.len(), 1);
    assert_eq!(cached[0].name, "foo");
    let entry = CacheManager::set("abc123456", symbols.clone());
    assert!(CacheManager::get(Some(entry), "wrong").is_none());
    assert!(CacheManager::get(None, "abc123456").is_none());
    assert_eq!(CacheEntry::new(String::from("b"), symbols.clone()).symbols_for("b"), Some(symbols));
}

#[test]
fn a_cache_entry_holds_many_symbols() {
    let mut symbols = Vec::new();
    for i in 0..1000 {
        symbols.push(Symbol::new_def(String::from("large.rs"), format!("func_{}", i), zero_range()));
    }
    let entry = CacheManager::set("large_blob", symbols);
    let cached = CacheManager::get(Some(entry), "large_blob").unwrap();
    assert_eq!(cached.len(), 1000);
    assert_eq!(cached[999].name, "func_999");
}

#[test]
fn cache_entries_lie_below_the_project() {
    let cache = CacheManager::new("proj");
    assert_eq!(cache.cache_dir, "proj/.gossiphs/cache");
    let path = cache.get_entry_path("src/main.rs");
    let name = path.strip_prefix("proj/.gossiphs/cache/").unwrap();
    let hex = name.strip_suffix(".bin").unwrap();
    assert!(!hex.is_empty() && hex.len() <= 16);
    assert!(hex.chars().all(|c| c.is_ascii_digit() || ('a'..='f').contains(&c)));
    assert!(hex == "0" || !hex.starts_with('0'));
    assert_eq!(path, cache.get_entry_path("src/main.rs"));
    assert_ne!(path, cache.get_entry_path("src/lib.rs"));
    assert_ne!(name, "src/main.rs");
    let mut hasher = std::collections::hash_map::DefaultHasher::new();
    std::hash::Hash::hash("src/main.rs", &mut hasher);
    let hash = std::hash::Hasher::finish(&hasher);
    assert_eq!(name, format!("{:x}.bin", hash));
    assert_eq!(hash_name("src/main.rs"), hash);
    assert_eq!(hex_of(0), "0");
    assert_eq!(hex_of(255), "ff");
    assert_eq!(hex_of(0xdead_beef_0000_0001), "deadbeef00000001");
}

fn hex_of(hash: u64) -> String {
    format!("{:x}", hash)
}

#[test]
fn many_names_find_their_slots() {
    let mut index = NameIndex::new();
    for i in 0..2000usize {
        index.insert(format!("name_{}", i), i * 3);
    }
    for i in 0..2000usize {
        assert_eq!(index.get(&format!("name_{}", i)), Some(i * 3));
    }
    assert_eq!(index.get(&String::from("name_2000")), None);
    assert_eq!(index.get(&String::from("name_")), None);
}

#[test]
fn entry_names_are_the_hash_in_hexadecimal() {
    let cache = CacheManager::new("repo");
    for path in ["src/main.rs", "", "a", "src/été.py", "x/y/z.go"] {
        let mut hasher = std::collections::hash_map::DefaultHasher::new();
        std::hash::Hash::hash(path, &mut hasher);
        let expected = format!("{:x}.bin", std::hash::Hasher::finish(&hasher));
        assert!(cache.get_entry_path(path).ends_with(&expected), "{}", path);
    }
}

#[test]
fn ids_write_numbers_in_decimal() {
    for n in [0usize, 9, 10, 99, 100, 1009, 18446744073709551615] {
        let range = RangeWrapper {
            start_byte: n,
            end_byte: n,
            start_point: Point { row: 0, column: 0 },
            end_point: Point { row: 0, column: 0 },
        };
        let s = Symbol::new_def(String::from("f"), String::from("ab"), range);
        assert_eq!(s.id(), format!("f:ab:DEF:{}:2", n));
    }
}
