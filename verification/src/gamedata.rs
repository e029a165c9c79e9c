//! The game data directory: which `.bin` files have an extractor, where the
//! directory usually is, and the listing of its `.bin` files.
//!
//! Looking at the file system is left to the caller, which hands over what it
//! found as plain values.

use vstd::prelude::*;
use vstd::string::{StringExecFns, StringSliceAdditionalSpecFns};
use vstd::utf8::{decode_utf8, encode_utf8, encode_utf8_decode_utf8, encode_utf8_valid_utf8};

verus! {

/// Whether two strings are equal, compared by their bytes.
pub fn str_eq(a: &str, b: &str) -> (r: bool)
    ensures
        r == (a@ == b@),
{
    let ab = a.as_bytes();
    let bb = b.as_bytes();
    let r = crate::xml::bytes_eq(ab, bb);
    proof {
        encode_utf8_decode_utf8(a@);
        encode_utf8_decode_utf8(b@);
    }
    r
}

/// The extractable files: file name, extract command, description.
pub open spec fn known_types_spec() -> Seq<(Seq<char>, Seq<char>, Seq<char>)> {
    seq![
        ("items.bin"@, "items"@, "Items database (40k+ items)"@),
        ("mobs.bin"@, "mobs"@, "Mobs database (4k+ creatures)"@),
        ("spells.bin"@, "spells"@, "Spells/abilities database"@),
        ("buildings.bin"@, "buildings"@, "Building definitions"@),
        ("localization.bin"@, "localization"@, "Localization strings (11MB TMX)"@),
        ("gamedata.bin"@, "gamedata"@, "Game settings key-value pairs"@),
        ("world.bin"@, "world"@, "World cluster definitions"@),
    ]
}

/// The values of a table of string triples.
pub open spec fn triples_view(t: Seq<(&str, &str, &str)>) -> Seq<(Seq<char>, Seq<char>, Seq<char>)> {
    t.map_values(|e: (&str, &str, &str)| (e.0@, e.1@, e.2@))
}

/// The known extractable types: file name, extract command and description.
pub fn known_types() -> (table: Vec<(&'static str, &'static str, &'static str)>)
    ensures
        triples_view(table@) == known_types_spec(),
{
    let table = vec![
        ("items.bin", "items", "Items database (40k+ items)"),
        ("mobs.bin", "mobs", "Mobs database (4k+ creatures)"),
        ("spells.bin", "spells", "Spells/abilities database"),
        ("buildings.bin", "buildings", "Building definitions"),
        ("localization.bin", "localization", "Localization strings (11MB TMX)"),
        ("gamedata.bin", "gamedata", "Game settings key-value pairs"),
        ("world.bin", "world", "World cluster definitions"),
    ];
    assert(triples_view(table@) =~= known_types_spec());
    table
}

/// Whether some row of the table has the file name `name`.
pub open spec fn is_known_name(name: Seq<char>) -> bool {
    exists|i: int| 0 <= i < known_types_spec().len() && (#[trigger] known_types_spec()[i]).0 == name
}

/// The command of the first row at or after `i` with the file name `name`.
pub open spec fn command_from(table: Seq<(Seq<char>, Seq<char>, Seq<char>)>, name: Seq<char>, i: int) -> Option<Seq<char>>
    decreases table.len() - i,
{
    if i < 0 || i >= table.len() {
        None
    } else if table[i].0 == name {
        Some(table[i].1)
    } else {
        command_from(table, name, i + 1)
    }
}

/// The extract command of a known file name.
pub open spec fn command_for(name: Seq<char>) -> Option<Seq<char>> {
    command_from(known_types_spec(), name, 0)
}

/// Whether a file name has a known extractor.
pub fn is_known_bin(name: &str) -> (known: bool)
    ensures
        known == is_known_name(name@),
{
    let table = known_types();
    let mut i: usize = 0;
    while i < table.len()
        invariant
            triples_view(table@) == known_types_spec(),
            i <= table@.len(),
            forall|j: int| 0 <= j < i ==> (#[trigger] known_types_spec()[j]).0 != name@,
        decreases table.len() - i,
    {
        if str_eq(table[i].0, name) {
            assert(known_types_spec()[i as int].0 == name@);
            return true;
        }
        i = i + 1;
    }
    false
}

/// The extract command for a known file name.
pub fn type_for_bin(name: &str) -> (command: Option<&'static str>)
    ensures
        match command {
            Some(c) => command_for(name@) == Some(c@),
            None => command_for(name@) is None,
        },
{
    let table = known_types();
    let ghost t = known_types_spec();
    let mut i: usize = 0;
    while i < table.len()
        invariant
            triples_view(table@) == t,
            t == known_types_spec(),
            i <= table@.len(),
            command_from(t, name@, 0) == command_from(t, name@, i as int),
        decreases table.len() - i,
    {
        if str_eq(table[i].0, name) {
            return Some(table[i].1);
        }
        i = i + 1;
    }
    None
}

/// A file name is known exactly when it has an extract command.
pub proof fn lemma_known_iff_command(name: Seq<char>)
    ensures
        is_known_name(name) <==> command_for(name) is Some,
{
    let t = known_types_spec();
    assert forall|i: int| 0 <= i <= t.len() implies
        (command_from(t, name, i) is Some <==> exists|j: int| i <= j < t.len() && (#[trigger] t[j]).0 == name) by {
        lemma_command_from(t, name, i);
    }
}

proof fn lemma_command_from(t: Seq<(Seq<char>, Seq<char>, Seq<char>)>, name: Seq<char>, i: int)
    requires
        0 <= i <= t.len(),
    ensures
        command_from(t, name, i) is Some <==> exists|j: int| i <= j < t.len() && (#[trigger] t[j]).0 == name,
    decreases t.len() - i,
{
    if i < t.len() {
        lemma_command_from(t, name, i + 1);
        if t[i].0 != name {
            assert forall|j: int| i <= j < t.len() && (#[trigger] t[j]).0 == name implies i + 1 <= j by {}
        }
    }
}

/// Where the game data directory usually is, in the order tried.
pub open spec fn gamedata_candidates_spec() -> Seq<Seq<char>> {
    seq![
        "C:\\Program Files (x86)\\Steam\\steamapps\\common\\Albion Online\\game\\Albion-Online_Data\\StreamingAssets\\GameData"@,
        "C:\\Program Files (x86)\\AlbionOnline\\game\\Albion-Online_Data\\StreamingAssets\\GameData"@,
        "C:\\Users\\secto\\AppData\\Local\\AlbionOnline\\game\\Albion-Online_Data\\StreamingAssets\\GameData"@,
    ]
}

/// The usual places of the game data directory (Steam install, standalone
/// launcher, launcher download cache), in the order they are tried.
pub fn gamedata_candidates() -> (paths: Vec<&'static str>)
    ensures
        paths@.map_values(|p: &str| p@) == gamedata_candidates_spec(),
{
    let paths = vec![
        "C:\\Program Files (x86)\\Steam\\steamapps\\common\\Albion Online\\game\\Albion-Online_Data\\StreamingAssets\\GameData",
        "C:\\Program Files (x86)\\AlbionOnline\\game\\Albion-Online_Data\\StreamingAssets\\GameData",
        "C:\\Users\\secto\\AppData\\Local\\AlbionOnline\\game\\Albion-Online_Data\\StreamingAssets\\GameData",
    ];
    assert(paths@.map_values(|p: &str| p@) =~= gamedata_candidates_spec());
    paths
}

/// The first candidate at or after `i`, among the first `n`, where both
/// marker files were found.
pub open spec fn first_complete(found: Seq<(bool, bool)>, n: int, i: int) -> Option<int>
    decreases n - i,
{
    if i < 0 || i >= n {
        None
    } else if found[i].0 && found[i].1 {
        Some(i)
    } else {
        first_complete(found, n, i + 1)
    }
}

/// Picks the game data directory: the first candidate of
/// `gamedata_candidates()` that holds both `items.bin` and `mobs.bin`.
/// `found[i]` tells whether candidate `i` holds `items.bin` and whether it
/// holds `mobs.bin`; candidates without an entry in `found` are not taken.
pub fn auto_detect_gamedata(found: &Vec<(bool, bool)>) -> (dir: Option<&'static str>)
    ensures
        ({
            let n = if found@.len() < gamedata_candidates_spec().len() {
                found@.len() as int
            } else {
                gamedata_candidates_spec().len() as int
            };
            match first_complete(found@, n, 0) {
                Some(i) => dir matches Some(d) && d@ == gamedata_candidates_spec()[i],
                None => dir is None,
            }
        }),
{
    let paths = gamedata_candidates();
    assert(gamedata_candidates_spec().len() == 3);
    proof {
        lemma_first_complete_range(found@, if found@.len() < 3 { found@.len() as int } else { 3 }, 0);
    }
    let n = if found.len() < paths.len() { found.len() } else { paths.len() };
    let mut i: usize = 0;
    while i < n
        invariant
            paths@.map_values(|p: &str| p@) == gamedata_candidates_spec(),
            gamedata_candidates_spec().len() == 3,
            n == if found@.len() < 3 { found@.len() } else { 3 },
            n <= found@.len(),
            n <= paths@.len(),
            i <= n,
            first_complete(found@, n as int, 0) == first_complete(found@, n as int, i as int),
        decreases n - i,
    {
        if found[i].0 && found[i].1 {
            assert(paths@.map_values(|p: &str| p@)[i as int] == paths@[i as int]@);
            return Some(paths[i]);
        }
        i = i + 1;
    }
    None
}

/// A directory entry as the caller read it: its file name (lossily decoded)
/// and, for a `.bin` file (see `is_bin_file_name`), its size.
#[derive(Debug)]
pub struct DirEntryInfo {
    pub file_name: String,
    pub size_bytes: u64,
}

/// The position of the last `.` byte at or before `i - 1` in `b`, or -1.
pub open spec fn last_dot_before(b: Seq<u8>, i: int) -> int
    decreases i,
{
    if i <= 0 {
        -1
    } else if b[i - 1] == 46u8 {
        i - 1
    } else {
        last_dot_before(b, i - 1)
    }
}

/// The position of the last `.` byte of a file name's UTF-8 bytes, or -1.
pub open spec fn last_dot(name: Seq<char>) -> int {
    last_dot_before(encode_utf8(name), encode_utf8(name).len() as int)
}

/// Whether a file name has the extension `bin`, as `Path::extension` reads
/// it: there is a `.` that is not the first byte, and after the last `.`
/// comes exactly `bin`.
pub open spec fn is_bin_name(name: Seq<char>) -> bool {
    let i = last_dot(name);
    i > 0 && encode_utf8(name).skip(i + 1) == "bin".spec_bytes()
}

/// The stem of a file name, as `Path::file_stem` reads it: the text before
/// its last `.` (for names where that `.` is not the first byte).
pub open spec fn bin_stem(name: Seq<char>) -> Seq<char> {
    decode_utf8(encode_utf8(name).take(last_dot(name)))
}

proof fn lemma_last_dot_before(b: Seq<u8>, i: int)
    requires
        0 <= i <= b.len(),
    ensures
        -1 <= last_dot_before(b, i) < i,
        last_dot_before(b, i) >= 0 ==> b[last_dot_before(b, i)] == 46u8,
        forall|k: int| last_dot_before(b, i) < k < i ==> #[trigger] b[k] != 46u8,
    decreases i,
{
    if i > 0 && b[i - 1] != 46u8 {
        lemma_last_dot_before(b, i - 1);
    }
}

/// The stem of a file name whose extension is `bin`, or `None` when its
/// extension is something else or missing.
pub fn bin_file_stem(name: &str) -> (stem: Option<String>)
    ensures
        match stem {
            Some(s) => is_bin_name(name@) && s@ == bin_stem(name@),
            None => !is_bin_name(name@),
        },
{
    let b = name.as_bytes();
    let ghost bs = b@;
    proof {
        encode_utf8_valid_utf8(name@);
        lemma_last_dot_before(bs, bs.len() as int);
    }
    let mut i: usize = b.len();
    while i > 0 && b[i - 1] != 46u8
        invariant
            bs == b@,
            i <= bs.len(),
            last_dot_before(bs, bs.len() as int) == last_dot_before(bs, i as int),
        decreases i,
    {
        i = i - 1;
    }
    assert(last_dot(name@) == i - 1);
    if i <= 1 {
        assert(!is_bin_name(name@));
        return None;
    }
    let dot = i - 1;
    let ghost ext = bs.skip(dot + 1);
    proof {
        reveal_strlit("bin");
        assert(vstd::string::is_ascii("bin"));
        vstd::string::is_ascii_spec_bytes("bin");
        assert("bin".spec_bytes() =~= seq![98u8, 105u8, 110u8]);
    }
    let ext_len = b.len() - (dot + 1);
    let is_bin = ext_len == 3 && b[dot + 1] == 98u8 && b[dot + 2] == 105u8 && b[dot + 3] == 110u8;
    proof {
        if is_bin {
            assert(ext =~= seq![98u8, 105u8, 110u8]);
        } else if ext_len == 3 {
            assert(ext[0] == bs[dot + 1]);
            assert(ext[1] == bs[dot + 2]);
            assert(ext[2] == bs[dot + 3]);
        }
    }
    if !is_bin {
        return None;
    }
    proof {
        vstd::utf8::is_char_boundary_iff_not_is_continuation_byte(bs, dot as int);
    }
    let (front, _back) = name.split_at(dot);
    proof {
        vstd::utf8::encode_utf8_decode_utf8(front@);
        assert(front.spec_bytes() =~= bs.take(dot as int));
    }
    Some(front.to_owned())
}

/// Whether a file name has the extension `bin` (the files that are listed).
pub fn is_bin_file_name(name: &str) -> (b: bool)
    ensures
        b == is_bin_name(name@),
{
    bin_file_stem(name).is_some()
}

/// A `.bin` file of the game data directory.
#[derive(Debug)]
pub struct BinFileInfo {
    pub name: String,
    pub stem: String,
    pub size_bytes: u64,
    pub known_type: bool,
}

/// The fields of a listed file: name, stem, size and whether it is known.
pub open spec fn info_view(f: BinFileInfo) -> (Seq<char>, Seq<char>, u64, bool) {
    (f.name@, f.stem@, f.size_bytes, f.known_type)
}

pub open spec fn infos_view(fs: Seq<BinFileInfo>) -> Seq<(Seq<char>, Seq<char>, u64, bool)> {
    fs.map_values(|f: BinFileInfo| info_view(f))
}


/// The listing of the `.bin` entries of one directory, in order; their names
/// get `prefix` in front, their stem is the file name before its last `.`,
/// and whether they are known goes by the bare file name.
pub open spec fn bin_listing(entries: Seq<DirEntryInfo>, prefix: Seq<char>) -> Seq<(Seq<char>, Seq<char>, u64, bool)>
    decreases entries.len(),
{
    if entries.len() == 0 {
        Seq::empty()
    } else {
        let prev = bin_listing(entries.drop_last(), prefix);
        let e = entries.last();
        if is_bin_name(e.file_name@) {
            prev.push((prefix + e.file_name@, bin_stem(e.file_name@), e.size_bytes, is_known_name(e.file_name@)))
        } else {
            prev
        }
    }
}

/// Lexicographic order of byte strings (the order of `str`).
pub open spec fn bytes_le(a: Seq<u8>, b: Seq<u8>) -> bool
    decreases a.len(),
{
    if a.len() == 0 {
        true
    } else if b.len() == 0 {
        false
    } else if a[0] != b[0] {
        a[0] < b[0]
    } else {
        bytes_le(a.drop_first(), b.drop_first())
    }
}

/// The listing order: known types first, then by name.
pub open spec fn listed_before(a: (Seq<char>, Seq<char>, u64, bool), b: (Seq<char>, Seq<char>, u64, bool)) -> bool {
    if a.3 != b.3 {
        a.3
    } else {
        bytes_le(encode_utf8(a.0), encode_utf8(b.0))
    }
}

/// Byte order is total.
pub proof fn lemma_bytes_le_total(a: Seq<u8>, b: Seq<u8>)
    ensures
        bytes_le(a, b) || bytes_le(b, a),
    decreases a.len(),
{
    if a.len() != 0 && b.len() != 0 && a[0] == b[0] {
        lemma_bytes_le_total(a.drop_first(), b.drop_first());
    }
}

/// Byte order is transitive.
pub proof fn lemma_bytes_le_trans(a: Seq<u8>, b: Seq<u8>, c: Seq<u8>)
    requires
        bytes_le(a, b),
        bytes_le(b, c),
    ensures
        bytes_le(a, c),
    decreases a.len(),
{
    if a.len() != 0 && b.len() != 0 && c.len() != 0 && a[0] == b[0] && b[0] == c[0] {
        lemma_bytes_le_trans(a.drop_first(), b.drop_first(), c.drop_first());
    }
}

/// The listing order is total.
pub proof fn lemma_listed_before_total(a: (Seq<char>, Seq<char>, u64, bool), b: (Seq<char>, Seq<char>, u64, bool))
    ensures
        listed_before(a, b) || listed_before(b, a),
{
    lemma_bytes_le_total(encode_utf8(a.0), encode_utf8(b.0));
}

/// The listing order is transitive.
pub proof fn lemma_listed_before_trans(
    a: (Seq<char>, Seq<char>, u64, bool),
    b: (Seq<char>, Seq<char>, u64, bool),
    c: (Seq<char>, Seq<char>, u64, bool),
)
    requires
        listed_before(a, b),
        listed_before(b, c),
    ensures
        listed_before(a, c),
{
    if a.3 == b.3 && b.3 == c.3 {
        lemma_bytes_le_trans(encode_utf8(a.0), encode_utf8(b.0), encode_utf8(c.0));
    }
}

/// Whether `a` comes before `b` in lexicographic byte order (or equals it).
fn bytes_ordered(a: &[u8], b: &[u8]) -> (r: bool)
    ensures
        r == bytes_le(a@, b@),
{
    let mut i: usize = 0;
    assert(a@.skip(0) =~= a@);
    assert(b@.skip(0) =~= b@);
    while i < a.len() && i < b.len() && a[i] == b[i]
        invariant
            i <= a@.len(),
            i <= b@.len(),
            bytes_le(a@, b@) == bytes_le(a@.skip(i as int), b@.skip(i as int)),
        decreases a.len() - i,
    {
        assert(a@.skip(i as int).drop_first() =~= a@.skip(i + 1));
        assert(b@.skip(i as int).drop_first() =~= b@.skip(i + 1));
        i = i + 1;
    }
    if i == a.len() {
        true
    } else if i == b.len() {
        false
    } else {
        assert(a@.skip(i as int)[0] == a@[i as int]);
        assert(b@.skip(i as int)[0] == b@[i as int]);
        a[i] < b[i]
    }
}

/// Whether file `a` is listed no later than file `b`.
fn file_listed_before(a: &BinFileInfo, b: &BinFileInfo) -> (r: bool)
    ensures
        r == listed_before(info_view(*a), info_view(*b)),
{
    if a.known_type != b.known_type {
        a.known_type
    } else {
        bytes_ordered(a.name.as_str().as_bytes(), b.name.as_str().as_bytes())
    }
}

/// The position of the first file that is listed no later than any other:
/// every file before it is listed strictly after it.
fn first_least(files: &Vec<BinFileInfo>) -> (m: usize)
    requires
        files@.len() > 0,
    ensures
        m < files@.len(),
        forall|j: int| 0 <= j < files@.len() ==> listed_before(info_view(files@[m as int]), #[trigger] info_view(files@[j])),
        forall|j: int| 0 <= j < m ==> !listed_before(#[trigger] info_view(files@[j]), info_view(files@[m as int])),
{
    let mut m: usize = 0;
    let mut k: usize = 1;
    proof {
        lemma_listed_before_total(info_view(files@[0]), info_view(files@[0]));
    }
    while k < files.len()
        invariant
            1 <= k <= files@.len(),
            m < k,
            forall|j: int| 0 <= j < k ==> listed_before(info_view(files@[m as int]), #[trigger] info_view(files@[j])),
            forall|j: int| 0 <= j < m ==> !listed_before(#[trigger] info_view(files@[j]), info_view(files@[m as int])),
        decreases files.len() - k,
    {
        if !file_listed_before(&files[m], &files[k]) {
            proof {
                lemma_least_moves(files@, m as int, k as int);
            }
            m = k;
        }
        k = k + 1;
    }
    m
}

proof fn lemma_least_moves(files: Seq<BinFileInfo>, m: int, k: int)
    requires
        0 <= m < k < files.len(),
        !listed_before(info_view(files[m]), info_view(files[k])),
        forall|j: int| 0 <= j < k ==> listed_before(info_view(files[m]), #[trigger] info_view(files[j])),
        forall|j: int| 0 <= j < m ==> !listed_before(#[trigger] info_view(files[j]), info_view(files[m])),
    ensures
        forall|j: int| 0 <= j < k + 1 ==> listed_before(info_view(files[k]), #[trigger] info_view(files[j])),
        forall|j: int| 0 <= j < k ==> !listed_before(#[trigger] info_view(files[j]), info_view(files[k])),
{
    lemma_listed_before_total(info_view(files[m]), info_view(files[k]));
    lemma_listed_before_total(info_view(files[k]), info_view(files[k]));
    assert forall|j: int| 0 <= j < k + 1 implies listed_before(info_view(files[k]), #[trigger] info_view(files[j])) by {
        if j < k {
            lemma_listed_before_trans(info_view(files[k]), info_view(files[m]), info_view(files[j]));
        }
    }
    assert forall|j: int| 0 <= j < k implies !listed_before(#[trigger] info_view(files[j]), info_view(files[k])) by {
        if listed_before(info_view(files[j]), info_view(files[k])) {
            if j < m {
                lemma_listed_before_trans(info_view(files[j]), info_view(files[k]), info_view(files[m]));
            } else if m < j {
                lemma_listed_before_trans(info_view(files[m]), info_view(files[j]), info_view(files[k]));
            }
        }
    }
}

/// Two files of the same rank: each is listed no later than the other
/// (the same kind and the same name).
pub open spec fn same_rank(a: (Seq<char>, Seq<char>, u64, bool), b: (Seq<char>, Seq<char>, u64, bool)) -> bool {
    listed_before(a, b) && listed_before(b, a)
}

/// `out` is the stable sort of `input` in listing order: it is `input`
/// rearranged by a permutation `p`, it is in listing order, and files of the
/// same rank keep the order they had in `input`.
pub open spec fn stably_sorted_by_p(
    out: Seq<(Seq<char>, Seq<char>, u64, bool)>,
    input: Seq<(Seq<char>, Seq<char>, u64, bool)>,
    p: Seq<int>,
) -> bool {
    &&& out.len() == input.len()
    &&& p.len() == out.len()
    &&& forall|k: int| 0 <= k < p.len() ==> 0 <= #[trigger] p[k] < input.len() && out[k] == input[p[k]]
    &&& forall|k: int, l: int| 0 <= k < l < p.len() ==> #[trigger] p[k] != #[trigger] p[l]
    &&& forall|k: int, l: int| 0 <= k < l < out.len() ==> listed_before(#[trigger] out[k], #[trigger] out[l])
        && (same_rank(out[k], out[l]) ==> p[k] < p[l])
}

/// `out` is the stable sort of `input` in listing order.
pub open spec fn stably_sorted(out: Seq<(Seq<char>, Seq<char>, u64, bool)>, input: Seq<(Seq<char>, Seq<char>, u64, bool)>) -> bool {
    exists|p: Seq<int>| stably_sorted_by_p(out, input, p)
}

/// The state of the selection sort: the sorted part `s` with the input
/// positions `si` of its files, and the rest `r` with their positions `ri`.
spec fn selection_inv(
    input: Seq<(Seq<char>, Seq<char>, u64, bool)>,
    s: Seq<(Seq<char>, Seq<char>, u64, bool)>,
    si: Seq<int>,
    r: Seq<(Seq<char>, Seq<char>, u64, bool)>,
    ri: Seq<int>,
) -> bool {
    &&& si.len() == s.len()
    &&& ri.len() == r.len()
    &&& s.len() + r.len() == input.len()
    &&& forall|k: int| 0 <= k < si.len() ==> 0 <= #[trigger] si[k] < input.len() && s[k] == input[si[k]]
    &&& forall|j: int| 0 <= j < ri.len() ==> 0 <= #[trigger] ri[j] < input.len() && r[j] == input[ri[j]]
    &&& forall|j: int, q: int| 0 <= j < q < ri.len() ==> #[trigger] ri[j] < #[trigger] ri[q]
    &&& forall|k: int, l: int| 0 <= k < l < si.len() ==> #[trigger] si[k] != #[trigger] si[l]
    &&& forall|k: int, j: int| 0 <= k < si.len() && 0 <= j < ri.len() ==> #[trigger] si[k] != #[trigger] ri[j]
    &&& forall|k: int, l: int| 0 <= k < l < s.len() ==> listed_before(#[trigger] s[k], #[trigger] s[l])
        && (same_rank(s[k], s[l]) ==> si[k] < si[l])
    &&& forall|k: int, j: int| 0 <= k < s.len() && 0 <= j < r.len() ==> listed_before(#[trigger] s[k], #[trigger] r[j])
        && (same_rank(s[k], r[j]) ==> si[k] < ri[j])
}

/// Moving the first least file of the rest to the end of the sorted part
/// keeps the selection sort's state.
proof fn lemma_selection_step(
    input: Seq<(Seq<char>, Seq<char>, u64, bool)>,
    s: Seq<(Seq<char>, Seq<char>, u64, bool)>,
    si: Seq<int>,
    r: Seq<(Seq<char>, Seq<char>, u64, bool)>,
    ri: Seq<int>,
    m: int,
)
    requires
        selection_inv(input, s, si, r, ri),
        0 <= m < r.len(),
        forall|j: int| 0 <= j < r.len() ==> listed_before(r[m], #[trigger] r[j]),
        forall|j: int| 0 <= j < m ==> !listed_before(#[trigger] r[j], r[m]),
    ensures
        selection_inv(input, s.push(r[m]), si.push(ri[m]), r.remove(m), ri.remove(m)),
{
    let s2 = s.push(r[m]);
    let si2 = si.push(ri[m]);
    let r2 = r.remove(m);
    let ri2 = ri.remove(m);
    assert forall|k: int| 0 <= k < si2.len() implies 0 <= #[trigger] si2[k] < input.len() && s2[k] == input[si2[k]] by {
        if k < si.len() {
            assert(si2[k] == si[k]);
        }
    }
    assert forall|j: int| 0 <= j < ri2.len() implies 0 <= #[trigger] ri2[j] < input.len() && r2[j] == input[ri2[j]] by {
        if j < m {
            assert(ri2[j] == ri[j]);
        } else {
            assert(ri2[j] == ri[j + 1]);
        }
    }
    assert forall|j: int, q: int| 0 <= j < q < ri2.len() implies #[trigger] ri2[j] < #[trigger] ri2[q] by {
        let oj = if j < m { j } else { j + 1 };
        let oq = if q < m { q } else { q + 1 };
        assert(ri2[j] == ri[oj]);
        assert(ri2[q] == ri[oq]);
    }
    assert forall|k: int, l: int| 0 <= k < l < si2.len() implies #[trigger] si2[k] != #[trigger] si2[l] by {
        if l == si.len() {
            assert(si2[k] == si[k]);
            assert(si[k] != ri[m]);
        } else {
            assert(si2[k] == si[k]);
            assert(si2[l] == si[l]);
        }
    }
    assert forall|k: int, j: int| 0 <= k < si2.len() && 0 <= j < ri2.len() implies #[trigger] si2[k] != #[trigger] ri2[j] by {
        let oj = if j < m { j } else { j + 1 };
        assert(ri2[j] == ri[oj]);
        if k < si.len() {
            assert(si2[k] == si[k]);
            assert(si[k] != ri[oj]);
        } else {
            assert(si2[k] == ri[m]);
            if oj < m {
                assert(ri[oj] < ri[m]);
            } else {
                assert(ri[m] < ri[oj]);
            }
        }
    }
    assert forall|k: int, l: int| 0 <= k < l < s2.len() implies listed_before(#[trigger] s2[k], #[trigger] s2[l])
        && (same_rank(s2[k], s2[l]) ==> si2[k] < si2[l]) by {
        assert(s2[k] == s[k]);
        assert(si2[k] == si[k]);
        if l == s.len() {
            assert(s2[l] == r[m]);
            assert(si2[l] == ri[m]);
        } else {
            assert(s2[l] == s[l]);
            assert(si2[l] == si[l]);
        }
    }
    assert forall|k: int, j: int| 0 <= k < s2.len() && 0 <= j < r2.len() implies listed_before(#[trigger] s2[k], #[trigger] r2[j])
        && (same_rank(s2[k], r2[j]) ==> si2[k] < ri2[j]) by {
        let oj = if j < m { j } else { j + 1 };
        assert(r2[j] == r[oj]);
        assert(ri2[j] == ri[oj]);
        if k < s.len() {
            assert(s2[k] == s[k]);
            assert(si2[k] == si[k]);
        } else {
            assert(s2[k] == r[m]);
            assert(si2[k] == ri[m]);
            if same_rank(r[m], r[oj]) && oj < m {
                assert(!listed_before(r[oj], r[m]));
            }
            if oj > m {
                assert(ri[m] < ri[oj]);
            }
        }
    }
}

/// Sorts files into listing order, stably: known types first, then by name;
/// files of the same rank keep their order.
fn sort_listing(files: Vec<BinFileInfo>) -> (sorted: Vec<BinFileInfo>)
    ensures
        stably_sorted(infos_view(sorted@), infos_view(files@)),
{
    let ghost input = infos_view(files@);
    let mut rest = files;
    let mut sorted: Vec<BinFileInfo> = Vec::new();
    let ghost mut si: Seq<int> = Seq::empty();
    let ghost mut ri: Seq<int> = Seq::new(input.len(), |j: int| j);
    assert(infos_view(sorted@) =~= Seq::<(Seq<char>, Seq<char>, u64, bool)>::empty());
    assert(selection_inv(input, infos_view(sorted@), si, infos_view(rest@), ri));
    while rest.len() > 0
        invariant
            selection_inv(input, infos_view(sorted@), si, infos_view(rest@), ri),
        decreases rest.len(),
    {
        let m = first_least(&rest);
        let ghost rest_before = rest@;
        let ghost old_rest = infos_view(rest@);
        let ghost old_sorted = infos_view(sorted@);
        let f = rest.remove(m);
        sorted.push(f);
        proof {
            assert forall|j: int| 0 <= j < old_rest.len() implies listed_before(old_rest[m as int], #[trigger] old_rest[j]) by {
                assert(old_rest[j] == info_view(rest_before[j]));
            }
            assert forall|j: int| 0 <= j < m implies !listed_before(#[trigger] old_rest[j], old_rest[m as int]) by {
                assert(old_rest[j] == info_view(rest_before[j]));
            }
            lemma_selection_step(input, old_sorted, si, old_rest, ri, m as int);
            assert(infos_view(rest@) =~= old_rest.remove(m as int));
            assert(infos_view(sorted@) =~= old_sorted.push(old_rest[m as int]));
            si = si.push(ri[m as int]);
            ri = ri.remove(m as int);
        }
    }
    assert(stably_sorted_by_p(infos_view(sorted@), input, si));
    sorted
}

proof fn lemma_first_complete_range(found: Seq<(bool, bool)>, n: int, i: int)
    ensures
        first_complete(found, n, i) matches Some(k) ==> i <= k < n && 0 <= k,
    decreases n - i,
{
    if 0 <= i < n {
        lemma_first_complete_range(found, n, i + 1);
    }
}

/// A sequence that is another one rearranged by an injective map of positions
/// holds the same elements, each as often.
proof fn lemma_permuted_multiset<A>(out: Seq<A>, input: Seq<A>, p: Seq<int>)
    requires
        out.len() == input.len(),
        p.len() == out.len(),
        forall|k: int| 0 <= k < p.len() ==> 0 <= #[trigger] p[k] < input.len() && out[k] == input[p[k]],
        forall|k: int, l: int| 0 <= k < l < p.len() ==> #[trigger] p[k] != #[trigger] p[l],
    ensures
        out.to_multiset() == input.to_multiset(),
    decreases out.len(),
{
    broadcast use vstd::seq_lib::group_to_multiset_ensures;

    if out.len() == 0 {
        assert(out.to_multiset() =~= input.to_multiset());
    } else {
        let n = out.len() - 1;
        let q = p[n];
        let out2 = out.drop_last();
        let input2 = input.remove(q);
        let p2 = Seq::new(n as nat, |k: int| if p[k] > q { p[k] - 1 } else { p[k] });
        assert forall|k: int| 0 <= k < p2.len() implies 0 <= #[trigger] p2[k] < input2.len() && out2[k] == input2[p2[k]] by {
            assert(p[k] != q);
        }
        assert forall|k: int, l: int| 0 <= k < l < p2.len() implies #[trigger] p2[k] != #[trigger] p2[l] by {
            assert(p[k] != q);
            assert(p[l] != q);
        }
        lemma_permuted_multiset(out2, input2, p2);
        assert(out =~= out2.push(out[n]));
        assert(out[n] == input[q]);
    }
}

/// The prefix of the names listed from the cluster subdirectory.
pub open spec fn listing_prefix(in_cluster: bool) -> Seq<char> {
    if in_cluster {
        "cluster/"@
    } else {
        Seq::empty()
    }
}

proof fn lemma_bin_listing_step(entries: Seq<DirEntryInfo>, i: int, prefix: Seq<char>)
    requires
        0 <= i < entries.len(),
    ensures
        bin_listing(entries.take(i + 1), prefix) == if is_bin_name(entries[i].file_name@) {
            bin_listing(entries.take(i), prefix).push(
                (prefix + entries[i].file_name@, bin_stem(entries[i].file_name@), entries[i].size_bytes, is_known_name(entries[i].file_name@)),
            )
        } else {
            bin_listing(entries.take(i), prefix)
        },
{
    assert(entries.take(i + 1).drop_last() =~= entries.take(i));
}

/// Appends the `.bin` entries of one directory to `files`.
fn collect_bin_entries(entries: &Vec<DirEntryInfo>, in_cluster: bool, files: &mut Vec<BinFileInfo>)
    ensures
        infos_view(final(files)@) == infos_view(old(files)@) + bin_listing(entries@, listing_prefix(in_cluster)),
{
    let ghost prefix = listing_prefix(in_cluster);
    let ghost start = infos_view(files@);
    let mut i: usize = 0;
    assert(start + bin_listing(entries@.take(0), prefix) =~= start);
    while i < entries.len()
        invariant
            prefix == listing_prefix(in_cluster),
            start == infos_view(old(files)@),
            i <= entries@.len(),
            infos_view(files@) == start + bin_listing(entries@.take(i as int), prefix),
        decreases entries.len() - i,
    {
        proof {
            lemma_bin_listing_step(entries@, i as int, prefix);
        }
        let e = &entries[i];
        if let Some(stem) = bin_file_stem(e.file_name.as_str()) {
            let name = if in_cluster {
                let mut n = "cluster/".to_owned();
                n.append(e.file_name.as_str());
                n
            } else {
                e.file_name.clone()
            };
            let known_type = is_known_bin(e.file_name.as_str());
            let ghost before = infos_view(files@);
            files.push(BinFileInfo { name, stem, size_bytes: e.size_bytes, known_type });
            assert(infos_view(files@) =~= before.push(info_view(files@.last())));
        }
        i = i + 1;
    }
    assert(entries@.take(entries@.len() as int) =~= entries@);
}

/// Lists the `.bin` files of the game data directory from the entries the
/// caller read: those of the directory itself, named by their file name, then
/// those of its `cluster` subdirectory, named `cluster/<file name>`; a file is
/// known when its bare file name has an extractor. Known types come first,
/// then the files go by name.
pub fn list_bin_files(root: &Vec<DirEntryInfo>, cluster: &Vec<DirEntryInfo>) -> (files: Vec<BinFileInfo>)
    ensures
        stably_sorted(
            infos_view(files@),
            bin_listing(root@, listing_prefix(false)) + bin_listing(cluster@, listing_prefix(true)),
        ),
{
    let mut files: Vec<BinFileInfo> = Vec::new();
    collect_bin_entries(root, false, &mut files);
    collect_bin_entries(cluster, true, &mut files);
    assert(infos_view(files@) =~= bin_listing(root@, listing_prefix(false)) + bin_listing(cluster@, listing_prefix(true)));
    sort_listing(files)
}

/// In a listing sorted from any input, every known file comes before every
/// unknown one, and files of the same kind come in byte order of their names.
pub proof fn lemma_listing_known_first(
    fs: Seq<(Seq<char>, Seq<char>, u64, bool)>,
    input: Seq<(Seq<char>, Seq<char>, u64, bool)>,
    i: int,
    j: int,
)
    requires
        stably_sorted(fs, input),
        0 <= i < j < fs.len(),
    ensures
        fs[j].3 ==> fs[i].3,
        fs[i].3 == fs[j].3 ==> bytes_le(encode_utf8(fs[i].0), encode_utf8(fs[j].0)),
{
    let p = choose|p: Seq<int>| stably_sorted_by_p(fs, input, p);
    assert(listed_before(fs[i], fs[j]));
}

/// The listing holds exactly the files it was sorted from, each as often.
pub proof fn lemma_listing_is_permutation(
    fs: Seq<(Seq<char>, Seq<char>, u64, bool)>,
    input: Seq<(Seq<char>, Seq<char>, u64, bool)>,
)
    requires
        stably_sorted(fs, input),
    ensures
        fs.to_multiset() == input.to_multiset(),
{
    let p = choose|p: Seq<int>| stably_sorted_by_p(fs, input, p);
    lemma_permuted_multiset(fs, input, p);
}

/// Every row of the known-types table names a file `<command>.bin`.
proof fn lemma_rows_name_their_command()
    ensures
        forall|i: int| 0 <= i < known_types_spec().len() ==> (#[trigger] known_types_spec()[i]).0
            == known_types_spec()[i].1 + ".bin"@,
{
    reveal_strlit("items.bin");
    reveal_strlit("items");
    reveal_strlit("mobs.bin");
    reveal_strlit("mobs");
    reveal_strlit("spells.bin");
    reveal_strlit("spells");
    reveal_strlit("buildings.bin");
    reveal_strlit("buildings");
    reveal_strlit("localization.bin");
    reveal_strlit("localization");
    reveal_strlit("gamedata.bin");
    reveal_strlit("gamedata");
    reveal_strlit("world.bin");
    reveal_strlit("world");
    reveal_strlit(".bin");
    assert("items.bin"@ =~= "items"@ + ".bin"@);
    assert("mobs.bin"@ =~= "mobs"@ + ".bin"@);
    assert("spells.bin"@ =~= "spells"@ + ".bin"@);
    assert("buildings.bin"@ =~= "buildings"@ + ".bin"@);
    assert("localization.bin"@ =~= "localization"@ + ".bin"@);
    assert("gamedata.bin"@ =~= "gamedata"@ + ".bin"@);
    assert("world.bin"@ =~= "world"@ + ".bin"@);
    let t = known_types_spec();
    assert(t.len() == 7);
}

/// A command found for a file name comes from a row with that name.
proof fn lemma_command_from_row(t: Seq<(Seq<char>, Seq<char>, Seq<char>)>, name: Seq<char>, i: int)
    requires
        0 <= i <= t.len(),
    ensures
        command_from(t, name, i) matches Some(c) ==> exists|j: int| i <= j < t.len() && (#[trigger] t[j]).0 == name && t[j].1 == c,
    decreases t.len() - i,
{
    if i < t.len() {
        lemma_command_from_row(t, name, i + 1);
    }
}

/// The seven extractable files are known, each with the command that is its
/// name without `.bin`; and whatever file name has a command is that command
/// followed by `.bin`.
pub proof fn lemma_known_names()
    ensures
        is_known_name("items.bin"@),
        is_known_name("mobs.bin"@),
        is_known_name("spells.bin"@),
        is_known_name("buildings.bin"@),
        is_known_name("localization.bin"@),
        is_known_name("gamedata.bin"@),
        is_known_name("world.bin"@),
        command_for("items.bin"@) == Some("items"@),
        command_for("mobs.bin"@) == Some("mobs"@),
        command_for("spells.bin"@) == Some("spells"@),
        command_for("buildings.bin"@) == Some("buildings"@),
        command_for("localization.bin"@) == Some("localization"@),
        command_for("gamedata.bin"@) == Some("gamedata"@),
        command_for("world.bin"@) == Some("world"@),
        forall|n: Seq<char>, c: Seq<char>| command_for(n) == Some(c) ==> n == c + ".bin"@,
{
    reveal_strlit("items.bin");
    reveal_strlit("items");
    reveal_strlit("mobs.bin");
    reveal_strlit("mobs");
    reveal_strlit("spells.bin");
    reveal_strlit("spells");
    reveal_strlit("buildings.bin");
    reveal_strlit("buildings");
    reveal_strlit("localization.bin");
    reveal_strlit("localization");
    reveal_strlit("gamedata.bin");
    reveal_strlit("gamedata");
    reveal_strlit("world.bin");
    reveal_strlit("world");
    reveal_strlit(".bin");
    assert("mobs.bin"@ != "items.bin"@) by { if "mobs.bin"@.len() == "items.bin"@.len() { assert("mobs.bin"@[0] != "items.bin"@[0]); } }
    assert("spells.bin"@ != "items.bin"@) by { if "spells.bin"@.len() == "items.bin"@.len() { assert("spells.bin"@[0] != "items.bin"@[0]); } }
    assert("spells.bin"@ != "mobs.bin"@) by { if "spells.bin"@.len() == "mobs.bin"@.len() { assert("spells.bin"@[0] != "mobs.bin"@[0]); } }
    assert("buildings.bin"@ != "items.bin"@) by { if "buildings.bin"@.len() == "items.bin"@.len() { assert("buildings.bin"@[0] != "items.bin"@[0]); } }
    assert("buildings.bin"@ != "mobs.bin"@) by { if "buildings.bin"@.len() == "mobs.bin"@.len() { assert("buildings.bin"@[0] != "mobs.bin"@[0]); } }
    assert("buildings.bin"@ != "spells.bin"@) by { if "buildings.bin"@.len() == "spells.bin"@.len() { assert("buildings.bin"@[0] != "spells.bin"@[0]); } }
    assert("localization.bin"@ != "items.bin"@) by { if "localization.bin"@.len() == "items.bin"@.len() { assert("localization.bin"@[0] != "items.bin"@[0]); } }
    assert("localization.bin"@ != "mobs.bin"@) by { if "localization.bin"@.len() == "mobs.bin"@.len() { assert("localization.bin"@[0] != "mobs.bin"@[0]); } }
    assert("localization.bin"@ != "spells.bin"@) by { if "localization.bin"@.len() == "spells.bin"@.len() { assert("localization.bin"@[0] != "spells.bin"@[0]); } }
    assert("localization.bin"@ != "buildings.bin"@) by { if "localization.bin"@.len() == "buildings.bin"@.len() { assert("localization.bin"@[0] != "buildings.bin"@[0]); } }
    assert("gamedata.bin"@ != "items.bin"@) by { if "gamedata.bin"@.len() == "items.bin"@.len() { assert("gamedata.bin"@[0] != "items.bin"@[0]); } }
    assert("gamedata.bin"@ != "mobs.bin"@) by { if "gamedata.bin"@.len() == "mobs.bin"@.len() { assert("gamedata.bin"@[0] != "mobs.bin"@[0]); } }
    assert("gamedata.bin"@ != "spells.bin"@) by { if "gamedata.bin"@.len() == "spells.bin"@.len() { assert("gamedata.bin"@[0] != "spells.bin"@[0]); } }
    assert("gamedata.bin"@ != "buildings.bin"@) by { if "gamedata.bin"@.len() == "buildings.bin"@.len() { assert("gamedata.bin"@[0] != "buildings.bin"@[0]); } }
    assert("gamedata.bin"@ != "localization.bin"@) by { if "gamedata.bin"@.len() == "localization.bin"@.len() { assert("gamedata.bin"@[0] != "localization.bin"@[0]); } }
    assert("world.bin"@ != "items.bin"@) by { if "world.bin"@.len() == "items.bin"@.len() { assert("world.bin"@[0] != "items.bin"@[0]); } }
    assert("world.bin"@ != "mobs.bin"@) by { if "world.bin"@.len() == "mobs.bin"@.len() { assert("world.bin"@[0] != "mobs.bin"@[0]); } }
    assert("world.bin"@ != "spells.bin"@) by { if "world.bin"@.len() == "spells.bin"@.len() { assert("world.bin"@[0] != "spells.bin"@[0]); } }
    assert("world.bin"@ != "buildings.bin"@) by { if "world.bin"@.len() == "buildings.bin"@.len() { assert("world.bin"@[0] != "buildings.bin"@[0]); } }
    assert("world.bin"@ != "localization.bin"@) by { if "world.bin"@.len() == "localization.bin"@.len() { assert("world.bin"@[0] != "localization.bin"@[0]); } }
    assert("world.bin"@ != "gamedata.bin"@) by { if "world.bin"@.len() == "gamedata.bin"@.len() { assert("world.bin"@[0] != "gamedata.bin"@[0]); } }
    lemma_rows_name_their_command();
    let t = known_types_spec();
    assert forall|n: Seq<char>, c: Seq<char>| command_for(n) == Some(c) implies n == c + ".bin"@ by {
        lemma_command_from_row(t, n, 0);
    }
    assert(t[0].0 == "items.bin"@);
    assert(t[1].0 == "mobs.bin"@);
    assert(t[2].0 == "spells.bin"@);
    assert(t[3].0 == "buildings.bin"@);
    assert(t[4].0 == "localization.bin"@);
    assert(t[5].0 == "gamedata.bin"@);
    assert(t[6].0 == "world.bin"@);
    assert(command_from(t, "items.bin"@, 0) == Some("items"@));
    assert(command_from(t, "mobs.bin"@, 1) == Some("mobs"@));
    assert(command_from(t, "mobs.bin"@, 0) == command_from(t, "mobs.bin"@, 1));
    assert(command_from(t, "spells.bin"@, 2) == Some("spells"@));
    assert(command_from(t, "spells.bin"@, 1) == command_from(t, "spells.bin"@, 2));
    assert(command_from(t, "spells.bin"@, 0) == command_from(t, "spells.bin"@, 1));
    assert(command_from(t, "buildings.bin"@, 3) == Some("buildings"@));
    assert(command_from(t, "buildings.bin"@, 2) == command_from(t, "buildings.bin"@, 3));
    assert(command_from(t, "buildings.bin"@, 1) == command_from(t, "buildings.bin"@, 2));
    assert(command_from(t, "buildings.bin"@, 0) == command_from(t, "buildings.bin"@, 1));
    assert(command_from(t, "localization.bin"@, 4) == Some("localization"@));
    assert(command_from(t, "localization.bin"@, 3) == command_from(t, "localization.bin"@, 4));
    assert(command_from(t, "localization.bin"@, 2) == command_from(t, "localization.bin"@, 3));
    assert(command_from(t, "localization.bin"@, 1) == command_from(t, "localization.bin"@, 2));
    assert(command_from(t, "localization.bin"@, 0) == command_from(t, "localization.bin"@, 1));
    assert(command_from(t, "gamedata.bin"@, 5) == Some("gamedata"@));
    assert(command_from(t, "gamedata.bin"@, 4) == command_from(t, "gamedata.bin"@, 5));
    assert(command_from(t, "gamedata.bin"@, 3) == command_from(t, "gamedata.bin"@, 4));
    assert(command_from(t, "gamedata.bin"@, 2) == command_from(t, "gamedata.bin"@, 3));
    assert(command_from(t, "gamedata.bin"@, 1) == command_from(t, "gamedata.bin"@, 2));
    assert(command_from(t, "gamedata.bin"@, 0) == command_from(t, "gamedata.bin"@, 1));
    assert(command_from(t, "world.bin"@, 6) == Some("world"@));
    assert(command_from(t, "world.bin"@, 5) == command_from(t, "world.bin"@, 6));
    assert(command_from(t, "world.bin"@, 4) == command_from(t, "world.bin"@, 5));
    assert(command_from(t, "world.bin"@, 3) == command_from(t, "world.bin"@, 4));
    assert(command_from(t, "world.bin"@, 2) == command_from(t, "world.bin"@, 3));
    assert(command_from(t, "world.bin"@, 1) == command_from(t, "world.bin"@, 2));
    assert(command_from(t, "world.bin"@, 0) == command_from(t, "world.bin"@, 1));
}

/// The data directory picked is the first candidate (among the first `n`)
/// where both marker files were found: it has both, and no candidate before
/// it has both; nothing is picked when no candidate has both.
pub proof fn lemma_first_complete(found: Seq<(bool, bool)>, n: int, i: int)
    requires
        0 <= i,
        n <= found.len(),
    ensures
        first_complete(found, n, i) matches Some(k) ==> i <= k < n && found[k].0 && found[k].1 && forall|j: int|
            i <= j < k ==> !((#[trigger] found[j]).0 && found[j].1),
        first_complete(found, n, i) is None ==> forall|j: int| i <= j < n ==> !((#[trigger] found[j]).0 && found[j].1),
    decreases n - i,
{
    if i < n {
        lemma_first_complete(found, n, i + 1);
    }
}

/// A file name is a `.bin` name exactly when its bytes are more than `.bin`
/// and end in `.bin`; its stem is then the name without that `.bin`.
pub proof fn lemma_bin_name(name: Seq<char>)
    ensures
        is_bin_name(name) <==> {
            let b = encode_utf8(name);
            b.len() > 4 && b.skip(b.len() - 4) == ".bin".spec_bytes()
        },
        is_bin_name(name) ==> encode_utf8(name) == encode_utf8(bin_stem(name)) + ".bin".spec_bytes(),
{
    reveal_strlit(".bin");
    reveal_strlit("bin");
    assert(vstd::string::is_ascii(".bin"));
    assert(vstd::string::is_ascii("bin"));
    vstd::string::is_ascii_spec_bytes(".bin");
    vstd::string::is_ascii_spec_bytes("bin");
    assert(".bin".spec_bytes() =~= seq![46u8, 98u8, 105u8, 110u8]);
    assert("bin".spec_bytes() =~= seq![98u8, 105u8, 110u8]);
    let b = encode_utf8(name);
    let len = b.len() as int;
    lemma_last_dot_before(b, len);
    let i = last_dot(name);
    if is_bin_name(name) {
        assert(b.skip(i + 1).len() == 3);
        assert(i == len - 4);
        assert(b.skip(len - 4) =~= ".bin".spec_bytes()) by {
            assert(b[i] == 46u8);
            assert(b.skip(i + 1)[0] == b[len - 3]);
            assert(b.skip(i + 1)[1] == b[len - 2]);
            assert(b.skip(i + 1)[2] == b[len - 1]);
        }
        encode_utf8_valid_utf8(name);
        vstd::utf8::is_char_boundary_iff_not_is_continuation_byte(b, i);
        vstd::utf8::valid_utf8_split(b, i);
        vstd::utf8::decode_utf8_encode_utf8(b.take(i));
        assert(b.take(i) =~= b.subrange(0, i));
        assert(b =~= b.take(i) + ".bin".spec_bytes());
    }
    if len > 4 && b.skip(len - 4) == ".bin".spec_bytes() {
        assert(b[len - 4] == b.skip(len - 4)[0]);
        assert(b[len - 3] == b.skip(len - 4)[1]);
        assert(b[len - 2] == b.skip(len - 4)[2]);
        assert(b[len - 1] == b.skip(len - 4)[3]);
        assert(last_dot_before(b, len) == last_dot_before(b, len - 1));
        assert(last_dot_before(b, len - 1) == last_dot_before(b, len - 2));
        assert(last_dot_before(b, len - 2) == last_dot_before(b, len - 3));
        assert(last_dot_before(b, len - 3) == len - 4);
        assert(b.skip(len - 3) =~= "bin".spec_bytes()) by {
            assert(b.skip(len - 3)[0] == b[len - 3]);
            assert(b.skip(len - 3)[1] == b[len - 2]);
            assert(b.skip(len - 3)[2] == b[len - 1]);
        }
    }
}

} // verus!
