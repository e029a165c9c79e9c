use bin_extract::gamedata::{
    auto_detect_gamedata, bin_file_stem, is_bin_file_name, gamedata_candidates, is_known_bin, known_types, list_bin_files, str_eq,
    type_for_bin, BinFileInfo, DirEntryInfo,
};

fn entry(file_name: &str, size: u64) -> DirEntryInfo {
    DirEntryInfo { file_name: file_name.to_string(), size_bytes: size }
}

fn names(files: &[BinFileInfo]) -> Vec<&str> {
    files.iter().map(|f| f.name.as_str()).collect()
}

#[test]
fn known_types_table() {
    let t = known_types();
    assert_eq!(t.len(), 7);
    assert_eq!(t[0], ("items.bin", "items", "Items database (40k+ items)"));
    assert_eq!(t[6], ("world.bin", "world", "World cluster definitions"));
}

#[test]
fn is_known_bin_examples() {
    assert!(is_known_bin("items.bin"));
    assert!(is_known_bin("localization.bin"));
    assert!(is_known_bin("world.bin"));
    assert!(!is_known_bin("cluster/world.bin"));
    assert!(!is_known_bin("Items.bin"));
    assert!(!is_known_bin("items"));
    assert!(!is_known_bin(""));
}

#[test]
fn type_for_bin_examples() {
    assert_eq!(type_for_bin("items.bin"), Some("items"));
    assert_eq!(type_for_bin("mobs.bin"), Some("mobs"));
    assert_eq!(type_for_bin("gamedata.bin"), Some("gamedata"));
    assert_eq!(type_for_bin("world.bin"), Some("world"));
    assert_eq!(type_for_bin("cluster/world.bin"), None);
    assert_eq!(type_for_bin("unknown.bin"), None);
}

#[test]
fn known_iff_it_has_a_command() {
    for name in ["items.bin", "mobs.bin", "spells.bin", "x.bin", "", "buildings.bin", "world"] {
        assert_eq!(is_known_bin(name), type_for_bin(name).is_some());
    }
}

#[test]
fn str_eq_examples() {
    assert!(str_eq("abc", "abc"));
    assert!(!str_eq("abc", "abd"));
    assert!(!str_eq("ab", "abc"));
    assert!(str_eq("", ""));
    assert!(str_eq("äö", "äö"));
}

#[test]
fn auto_detect_gamedata_picks_first_complete_candidate() {
    let c = gamedata_candidates();
    assert_eq!(c.len(), 3);
    assert_eq!(auto_detect_gamedata(&vec![(true, true), (true, true), (true, true)]), Some(c[0]));
    assert_eq!(auto_detect_gamedata(&vec![(true, false), (false, true), (true, true)]), Some(c[2]));
    assert_eq!(auto_detect_gamedata(&vec![(true, false), (true, true)]), Some(c[1]));
    assert_eq!(auto_detect_gamedata(&vec![(false, false), (true, false), (false, true)]), None);
    assert_eq!(auto_detect_gamedata(&vec![]), None);
    assert_eq!(auto_detect_gamedata(&vec![(false, false); 3].into_iter().chain([(true, true)]).collect()), None);
}

#[test]
fn list_bin_files_puts_known_first_then_by_name() {
    let root = vec![
        entry("zzz.bin", 1),
        entry("spells.bin", 2),
        entry("readme.txt", 3),
        entry("abc.bin", 4),
        entry("items.bin", 5),
        entry("noext", 6),
        entry("Upper.bin", 7),
    ];
    let cluster = vec![entry("world.bin", 8), entry("other.bin", 9), entry("x.xml", 10)];
    let files = list_bin_files(&root, &cluster);
    assert_eq!(
        names(&files),
        vec!["cluster/world.bin", "items.bin", "spells.bin", "Upper.bin", "abc.bin", "cluster/other.bin", "zzz.bin"]
    );
    let world = &files[0];
    assert!(world.known_type);
    assert_eq!(world.stem, "world");
    assert_eq!(world.size_bytes, 8);
    let zzz = &files[6];
    assert!(!zzz.known_type);
    assert_eq!(zzz.size_bytes, 1);
}

#[test]
fn list_bin_files_of_empty_directories_is_empty() {
    assert!(list_bin_files(&vec![], &vec![]).is_empty());
}

#[test]
fn list_bin_files_keeps_the_order_of_equal_names() {
    let root = vec![entry("dup.bin", 1), entry("a.bin", 2), entry("dup.bin", 3)];
    let files = list_bin_files(&root, &vec![]);
    assert_eq!(names(&files), vec!["a.bin", "dup.bin", "dup.bin"]);
    assert_eq!(files[1].size_bytes, 1);
    assert_eq!(files[2].size_bytes, 3);
}

#[test]
fn list_bin_files_orders_names_by_bytes() {
    let root = vec![
        entry("b.bin", 1),
        entry("ä.bin", 2),
        entry("B.bin", 3),
        entry("a.bin", 4),
        entry("ab.bin", 5),
    ];
    let files = list_bin_files(&root, &vec![]);
    assert_eq!(names(&files), vec!["B.bin", "a.bin", "ab.bin", "b.bin", "ä.bin"]);
}

#[test]
fn bin_file_stem_follows_path_rules() {
    assert_eq!(bin_file_stem("items.bin"), Some("items".to_string()));
    assert_eq!(bin_file_stem("a.tar.bin"), Some("a.tar".to_string()));
    assert_eq!(bin_file_stem("ä.bin"), Some("ä".to_string()));
    assert_eq!(bin_file_stem(".bin"), None);
    assert_eq!(bin_file_stem("x.bin.gz"), None);
    assert_eq!(bin_file_stem("bin"), None);
    assert_eq!(bin_file_stem("x.BIN"), None);
    assert_eq!(bin_file_stem("x.binx"), None);
    assert_eq!(bin_file_stem("..bin"), Some(".".to_string()));
    assert!(is_bin_file_name("world.bin"));
    assert!(!is_bin_file_name("readme.txt"));
}

#[test]
fn list_bin_files_derives_stems() {
    let root = vec![entry("a.b.bin", 1), entry(".bin", 2), entry("notes.txt", 3)];
    let files = list_bin_files(&root, &vec![entry("world.bin", 4)]);
    assert_eq!(names(&files), vec!["cluster/world.bin", "a.b.bin"]);
    assert_eq!(files[0].stem, "world");
    assert_eq!(files[1].stem, "a.b");
}
