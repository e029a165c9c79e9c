//! The decisions of the command-line front end: the interactive menu, the
//! choice of a file type to extract, and the files that "extract all" goes
//! through. Reading input and touching files is left to the caller.

use vstd::prelude::*;
use crate::gamedata::{command_for, lemma_known_names, str_eq};

verus! {

/// What an answer at the main menu asks for.
#[derive(Debug, PartialEq, Eq)]
pub enum MenuAction {
    ExtractAll,
    List,
    ExtractOne,
    Decrypt,
    ChangePath,
    Quit,
    Unknown,
}

/// The action an (already trimmed) menu answer asks for.
pub open spec fn menu_action_spec(input: Seq<char>) -> MenuAction {
    if input == "1"@ || input == "all"@ {
        MenuAction::ExtractAll
    } else if input == "2"@ || input == "ls"@ || input == "list"@ {
        MenuAction::List
    } else if input == "3"@ || input == "extract"@ {
        MenuAction::ExtractOne
    } else if input == "4"@ || input == "decrypt"@ {
        MenuAction::Decrypt
    } else if input == "5"@ || input == "path"@ {
        MenuAction::ChangePath
    } else if input == "q"@ || input == "quit"@ || input == "exit"@ || input.len() == 0 {
        MenuAction::Quit
    } else {
        MenuAction::Unknown
    }
}

/// The action an (already trimmed) answer at the main menu asks for: a
/// number or a word; an empty answer quits.
pub fn menu_action(input: &str) -> (action: MenuAction)
    ensures
        action == menu_action_spec(input@),
{
    if str_eq(input, "1") || str_eq(input, "all") {
        MenuAction::ExtractAll
    } else if str_eq(input, "2") || str_eq(input, "ls") || str_eq(input, "list") {
        MenuAction::List
    } else if str_eq(input, "3") || str_eq(input, "extract") {
        MenuAction::ExtractOne
    } else if str_eq(input, "4") || str_eq(input, "decrypt") {
        MenuAction::Decrypt
    } else if str_eq(input, "5") || str_eq(input, "path") {
        MenuAction::ChangePath
    } else if str_eq(input, "q") || str_eq(input, "quit") || str_eq(input, "exit") || input.is_empty() {
        MenuAction::Quit
    } else {
        MenuAction::Unknown
    }
}

/// The types offered by the extract menu, in menu order: command, file
/// relative to the game data directory, and description.
pub open spec fn extract_menu_spec() -> Seq<(Seq<char>, Seq<char>, Seq<char>)> {
    seq![
        ("items"@, "items.bin"@, "Items database"@),
        ("mobs"@, "mobs.bin"@, "Mobs database"@),
        ("world"@, "cluster/world.bin"@, "World clusters"@),
        ("spells"@, "spells.bin"@, "Spells/abilities"@),
        ("buildings"@, "buildings.bin"@, "Building definitions"@),
        ("localization"@, "localization.bin"@, "Localization strings"@),
        ("gamedata"@, "gamedata.bin"@, "Game settings"@),
    ]
}

/// The types offered by the extract menu, in menu order: command, file
/// relative to the game data directory, and description.
pub fn extract_menu() -> (menu: Vec<(&'static str, &'static str, &'static str)>)
    ensures
        crate::gamedata::triples_view(menu@) == extract_menu_spec(),
{
    let menu = vec![
        ("items", "items.bin", "Items database"),
        ("mobs", "mobs.bin", "Mobs database"),
        ("world", "cluster/world.bin", "World clusters"),
        ("spells", "spells.bin", "Spells/abilities"),
        ("buildings", "buildings.bin", "Building definitions"),
        ("localization", "localization.bin", "Localization strings"),
        ("gamedata", "gamedata.bin", "Game settings"),
    ];
    assert(crate::gamedata::triples_view(menu@) =~= extract_menu_spec());
    menu
}

/// The command and file that an answer at the extract menu picks, by its
/// number or by its command.
pub open spec fn extract_choice_spec(choice: Seq<char>) -> Option<(Seq<char>, Seq<char>)> {
    if choice == "1"@ || choice == "items"@ {
        Some(("items"@, "items.bin"@))
    } else if choice == "2"@ || choice == "mobs"@ {
        Some(("mobs"@, "mobs.bin"@))
    } else if choice == "3"@ || choice == "world"@ {
        Some(("world"@, "cluster/world.bin"@))
    } else if choice == "4"@ || choice == "spells"@ {
        Some(("spells"@, "spells.bin"@))
    } else if choice == "5"@ || choice == "buildings"@ {
        Some(("buildings"@, "buildings.bin"@))
    } else if choice == "6"@ || choice == "localization"@ {
        Some(("localization"@, "localization.bin"@))
    } else if choice == "7"@ || choice == "gamedata"@ {
        Some(("gamedata"@, "gamedata.bin"@))
    } else {
        None
    }
}

/// The command and the file (relative to the game data directory) that an
/// answer at the extract menu picks, by its number or by its command.
pub fn extract_choice(choice: &str) -> (picked: Option<(&'static str, &'static str)>)
    ensures
        match picked {
            Some((c, f)) => extract_choice_spec(choice@) == Some((c@, f@)),
            None => extract_choice_spec(choice@) is None,
        },
{
    if str_eq(choice, "1") || str_eq(choice, "items") {
        Some(("items", "items.bin"))
    } else if str_eq(choice, "2") || str_eq(choice, "mobs") {
        Some(("mobs", "mobs.bin"))
    } else if str_eq(choice, "3") || str_eq(choice, "world") {
        Some(("world", "cluster/world.bin"))
    } else if str_eq(choice, "4") || str_eq(choice, "spells") {
        Some(("spells", "spells.bin"))
    } else if str_eq(choice, "5") || str_eq(choice, "buildings") {
        Some(("buildings", "buildings.bin"))
    } else if str_eq(choice, "6") || str_eq(choice, "localization") {
        Some(("localization", "localization.bin"))
    } else if str_eq(choice, "7") || str_eq(choice, "gamedata") {
        Some(("gamedata", "gamedata.bin"))
    } else {
        None
    }
}

/// The files that "extract all" goes through, in order: file (relative to
/// the game data directory), command and output file name. Localization,
/// being large, comes last.
pub open spec fn extract_all_targets_spec() -> Seq<(Seq<char>, Seq<char>, Seq<char>)> {
    seq![
        ("items.bin"@, "items"@, "items.json"@),
        ("mobs.bin"@, "mobs"@, "mobs.json"@),
        ("spells.bin"@, "spells"@, "spells.json"@),
        ("buildings.bin"@, "buildings"@, "buildings.json"@),
        ("gamedata.bin"@, "gamedata"@, "gamedata.json"@),
        ("cluster/world.bin"@, "world"@, "world.json"@),
        ("localization.bin"@, "localization"@, "localization.json"@),
    ]
}

/// The files that "extract all" goes through, in order: file (relative to
/// the game data directory), command and output file name. Localization,
/// being large, comes last.
pub fn extract_all_targets() -> (targets: Vec<(&'static str, &'static str, &'static str)>)
    ensures
        crate::gamedata::triples_view(targets@) == extract_all_targets_spec(),
{
    let targets = vec![
        ("items.bin", "items", "items.json"),
        ("mobs.bin", "mobs", "mobs.json"),
        ("spells.bin", "spells", "spells.json"),
        ("buildings.bin", "buildings", "buildings.json"),
        ("gamedata.bin", "gamedata", "gamedata.json"),
        ("cluster/world.bin", "world", "world.json"),
        ("localization.bin", "localization", "localization.json"),
    ];
    assert(crate::gamedata::triples_view(targets@) =~= extract_all_targets_spec());
    targets
}

/// The plural and singular labels of what a command extracts.
pub open spec fn extract_labels_spec(cmd: Seq<char>) -> Option<(Seq<char>, Seq<char>)> {
    if cmd == "items"@ {
        Some(("items"@, "item"@))
    } else if cmd == "mobs"@ {
        Some(("mobs"@, "mob"@))
    } else if cmd == "world"@ {
        Some(("clusters"@, "cluster"@))
    } else if cmd == "spells"@ {
        Some(("spells"@, "spell"@))
    } else if cmd == "buildings"@ {
        Some(("buildings"@, "building"@))
    } else if cmd == "localization"@ {
        Some(("translations"@, "entry"@))
    } else if cmd == "gamedata"@ {
        Some(("settings"@, "setting"@))
    } else {
        None
    }
}

/// The plural and singular labels of what an extract command produces;
/// `None` for a command that does not exist.
pub fn extract_labels(cmd: &str) -> (labels: Option<(&'static str, &'static str)>)
    ensures
        match labels {
            Some((p, s)) => extract_labels_spec(cmd@) == Some((p@, s@)),
            None => extract_labels_spec(cmd@) is None,
        },
{
    if str_eq(cmd, "items") {
        Some(("items", "item"))
    } else if str_eq(cmd, "mobs") {
        Some(("mobs", "mob"))
    } else if str_eq(cmd, "world") {
        Some(("clusters", "cluster"))
    } else if str_eq(cmd, "spells") {
        Some(("spells", "spell"))
    } else if str_eq(cmd, "buildings") {
        Some(("buildings", "building"))
    } else if str_eq(cmd, "localization") {
        Some(("translations", "entry"))
    } else if str_eq(cmd, "gamedata") {
        Some(("settings", "setting"))
    } else {
        None
    }
}

/// The answer to a prompt: the (already trimmed) input, or the default when
/// the input is empty.
pub fn prompt_answer(input: &str, default: &str) -> (answer: String)
    ensures
        answer@ == if input@.len() == 0 { default@ } else { input@ },
{
    if input.is_empty() {
        default.to_owned()
    } else {
        input.to_owned()
    }
}

/// Whether the `--format` option asks for compact JSON; anything else,
/// `pretty` by default, gives indented JSON.
pub fn is_compact_format(format: &str) -> (compact: bool)
    ensures
        compact == (format@ == "compact"@),
{
    str_eq(format, "compact")
}

/// Reveals the literals that the menu tables are made of.
proof fn lemma_menu_literals()
    ensures
        "items.bin"@ == "items"@ + ".bin"@,
        "mobs.bin"@ == "mobs"@ + ".bin"@,
        "world.bin"@ == "world"@ + ".bin"@,
        "spells.bin"@ == "spells"@ + ".bin"@,
        "buildings.bin"@ == "buildings"@ + ".bin"@,
        "localization.bin"@ == "localization"@ + ".bin"@,
        "gamedata.bin"@ == "gamedata"@ + ".bin"@,
        "items.json"@ == "items"@ + ".json"@,
        "mobs.json"@ == "mobs"@ + ".json"@,
        "world.json"@ == "world"@ + ".json"@,
        "spells.json"@ == "spells"@ + ".json"@,
        "buildings.json"@ == "buildings"@ + ".json"@,
        "localization.json"@ == "localization"@ + ".json"@,
        "gamedata.json"@ == "gamedata"@ + ".json"@,
        "cluster/world.bin"@ == "cluster/"@ + "world"@ + ".bin"@,
{
    reveal_strlit(".bin");
    reveal_strlit(".json");
    reveal_strlit("1");
    reveal_strlit("2");
    reveal_strlit("3");
    reveal_strlit("4");
    reveal_strlit("5");
    reveal_strlit("6");
    reveal_strlit("7");
    reveal_strlit("buildings");
    reveal_strlit("buildings.bin");
    reveal_strlit("buildings.json");
    reveal_strlit("cluster/");
    reveal_strlit("cluster/world.bin");
    reveal_strlit("gamedata");
    reveal_strlit("gamedata.bin");
    reveal_strlit("gamedata.json");
    reveal_strlit("items");
    reveal_strlit("items.bin");
    reveal_strlit("items.json");
    reveal_strlit("localization");
    reveal_strlit("localization.bin");
    reveal_strlit("localization.json");
    reveal_strlit("mobs");
    reveal_strlit("mobs.bin");
    reveal_strlit("mobs.json");
    reveal_strlit("spells");
    reveal_strlit("spells.bin");
    reveal_strlit("spells.json");
    reveal_strlit("world");
    reveal_strlit("world.bin");
    reveal_strlit("world.json");
    assert("items.bin"@ =~= "items"@ + ".bin"@);
    assert("mobs.bin"@ =~= "mobs"@ + ".bin"@);
    assert("world.bin"@ =~= "world"@ + ".bin"@);
    assert("spells.bin"@ =~= "spells"@ + ".bin"@);
    assert("buildings.bin"@ =~= "buildings"@ + ".bin"@);
    assert("localization.bin"@ =~= "localization"@ + ".bin"@);
    assert("gamedata.bin"@ =~= "gamedata"@ + ".bin"@);
    assert("items.json"@ =~= "items"@ + ".json"@);
    assert("mobs.json"@ =~= "mobs"@ + ".json"@);
    assert("world.json"@ =~= "world"@ + ".json"@);
    assert("spells.json"@ =~= "spells"@ + ".json"@);
    assert("buildings.json"@ =~= "buildings"@ + ".json"@);
    assert("localization.json"@ =~= "localization"@ + ".json"@);
    assert("gamedata.json"@ =~= "gamedata"@ + ".json"@);
    assert("cluster/world.bin"@ =~= "cluster/"@ + "world"@ + ".bin"@);
}

/// Every "extract all" target runs the extractor of its file and writes the
/// output named after it: the file is `<command>.bin` (for the world, in
/// `cluster/`), `<command>.bin` has that command in the known-types table,
/// and the output is `<command>.json`; the command has labels to report
/// with. Each extractor runs once.
pub proof fn lemma_extract_all_targets()
    ensures
        extract_all_targets_spec().len() == 7,
        forall|i: int| 0 <= i < 7 ==> {
            let (f, c, o) = #[trigger] extract_all_targets_spec()[i];
            &&& o == c + ".json"@
            &&& f == c + ".bin"@ || f == "cluster/"@ + c + ".bin"@
            &&& command_for(c + ".bin"@) == Some(c)
            &&& extract_labels_spec(c) is Some
        },
        forall|i: int, j: int| 0 <= i < j < 7 ==> (#[trigger] extract_all_targets_spec()[i]).1
            != (#[trigger] extract_all_targets_spec()[j]).1,
{
    lemma_menu_literals();
    lemma_known_names();
    reveal_strlit(".bin");
    reveal_strlit(".json");
    reveal_strlit("1");
    reveal_strlit("2");
    reveal_strlit("3");
    reveal_strlit("4");
    reveal_strlit("5");
    reveal_strlit("6");
    reveal_strlit("7");
    reveal_strlit("buildings");
    reveal_strlit("buildings.bin");
    reveal_strlit("buildings.json");
    reveal_strlit("cluster/");
    reveal_strlit("cluster/world.bin");
    reveal_strlit("gamedata");
    reveal_strlit("gamedata.bin");
    reveal_strlit("gamedata.json");
    reveal_strlit("items");
    reveal_strlit("items.bin");
    reveal_strlit("items.json");
    reveal_strlit("localization");
    reveal_strlit("localization.bin");
    reveal_strlit("localization.json");
    reveal_strlit("mobs");
    reveal_strlit("mobs.bin");
    reveal_strlit("mobs.json");
    reveal_strlit("spells");
    reveal_strlit("spells.bin");
    reveal_strlit("spells.json");
    reveal_strlit("world");
    reveal_strlit("world.bin");
    reveal_strlit("world.json");
    let t = extract_all_targets_spec();
    assert forall|i: int, j: int| 0 <= i < j < 7 implies (#[trigger] t[i]).1 != (#[trigger] t[j]).1 by {
        if t[i].1.len() == t[j].1.len() {
            assert(t[i].1[0] != t[j].1[0]);
        }
    }
}

/// Every answer at the extract menu picks the extractor of the file it
/// picks (`<command>.bin`, for the world in `cluster/`, which has that
/// command in the known-types table); each command picks itself, and each
/// row of the menu is picked by its command.
pub proof fn lemma_extract_choice()
    ensures
        forall|ch: Seq<char>| #[trigger] extract_choice_spec(ch) matches Some((c, f)) ==> (f == c + ".bin"@ || f
            == "cluster/"@ + c + ".bin"@) && command_for(c + ".bin"@) == Some(c),
        extract_choice_spec("items"@) == Some(("items"@, "items.bin"@)),
        extract_choice_spec("mobs"@) == Some(("mobs"@, "mobs.bin"@)),
        extract_choice_spec("world"@) == Some(("world"@, "cluster/world.bin"@)),
        extract_choice_spec("spells"@) == Some(("spells"@, "spells.bin"@)),
        extract_choice_spec("buildings"@) == Some(("buildings"@, "buildings.bin"@)),
        extract_choice_spec("localization"@) == Some(("localization"@, "localization.bin"@)),
        extract_choice_spec("gamedata"@) == Some(("gamedata"@, "gamedata.bin"@)),
        forall|i: int| 0 <= i < extract_menu_spec().len() ==> extract_choice_spec((#[trigger] extract_menu_spec()[i]).0)
            == Some((extract_menu_spec()[i].0, extract_menu_spec()[i].1)),
{
    lemma_menu_literals();
    lemma_known_names();
    reveal_strlit(".bin");
    reveal_strlit(".json");
    reveal_strlit("1");
    reveal_strlit("2");
    reveal_strlit("3");
    reveal_strlit("4");
    reveal_strlit("5");
    reveal_strlit("6");
    reveal_strlit("7");
    reveal_strlit("buildings");
    reveal_strlit("buildings.bin");
    reveal_strlit("buildings.json");
    reveal_strlit("cluster/");
    reveal_strlit("cluster/world.bin");
    reveal_strlit("gamedata");
    reveal_strlit("gamedata.bin");
    reveal_strlit("gamedata.json");
    reveal_strlit("items");
    reveal_strlit("items.bin");
    reveal_strlit("items.json");
    reveal_strlit("localization");
    reveal_strlit("localization.bin");
    reveal_strlit("localization.json");
    reveal_strlit("mobs");
    reveal_strlit("mobs.bin");
    reveal_strlit("mobs.json");
    reveal_strlit("spells");
    reveal_strlit("spells.bin");
    reveal_strlit("spells.json");
    reveal_strlit("world");
    reveal_strlit("world.bin");
    reveal_strlit("world.json");
    assert("world"@ != "items"@) by {
        assert("world"@[0] != "items"@[0]);
    }
    let m = extract_menu_spec();
    assert(m.len() == 7);
    assert forall|i: int| 0 <= i < m.len() implies extract_choice_spec((#[trigger] m[i]).0) == Some((m[i].0, m[i].1)) by {
        if i == 0 {
            assert(m[0].0 == "items"@);
        } else if i == 1 {
            assert(m[1].0 == "mobs"@);
        } else if i == 2 {
            assert(m[2].0 == "world"@);
        } else if i == 3 {
            assert(m[3].0 == "spells"@);
        } else if i == 4 {
            assert(m[4].0 == "buildings"@);
        } else if i == 5 {
            assert(m[5].0 == "localization"@);
        } else {
            assert(m[6].0 == "gamedata"@);
        }
    }
}

/// Each menu number asks for the same action as its word (`1`/`all`,
/// `2`/`ls`/`list`, `3`/`extract`, `4`/`decrypt`, `5`/`path`), the five
/// numbers ask for five different actions, none of which quits; `q`, `quit`,
/// `exit` and the empty answer all quit.
pub proof fn lemma_menu_answers()
    ensures
        menu_action_spec("1"@) == menu_action_spec("all"@),
        menu_action_spec("2"@) == menu_action_spec("ls"@),
        menu_action_spec("2"@) == menu_action_spec("list"@),
        menu_action_spec("3"@) == menu_action_spec("extract"@),
        menu_action_spec("4"@) == menu_action_spec("decrypt"@),
        menu_action_spec("5"@) == menu_action_spec("path"@),
        menu_action_spec("1"@) == MenuAction::ExtractAll,
        menu_action_spec("2"@) == MenuAction::List,
        menu_action_spec("3"@) == MenuAction::ExtractOne,
        menu_action_spec("4"@) == MenuAction::Decrypt,
        menu_action_spec("5"@) == MenuAction::ChangePath,
        menu_action_spec("q"@) == MenuAction::Quit,
        menu_action_spec("quit"@) == MenuAction::Quit,
        menu_action_spec("exit"@) == MenuAction::Quit,
        menu_action_spec(Seq::<char>::empty()) == MenuAction::Quit,
{
    reveal_strlit("1");
    reveal_strlit("2");
    reveal_strlit("3");
    reveal_strlit("4");
    reveal_strlit("5");
    reveal_strlit("all");
    reveal_strlit("ls");
    reveal_strlit("list");
    reveal_strlit("extract");
    reveal_strlit("decrypt");
    reveal_strlit("path");
    reveal_strlit("q");
    reveal_strlit("quit");
    reveal_strlit("exit");
    assert("1"@.len() == 1);
    assert("2"@.len() == 1);
    assert("3"@.len() == 1);
    assert("4"@.len() == 1);
    assert("5"@.len() == 1);
    assert("all"@.len() == 3);
    assert("ls"@.len() == 2);
    assert("list"@.len() == 4);
    assert("extract"@.len() == 7);
    assert("decrypt"@.len() == 7);
    assert("path"@.len() == 4);
    assert("q"@.len() == 1);
    assert("quit"@.len() == 4);
    assert("exit"@.len() == 4);
    assert("2"@ != "1"@) by {
        assert("2"@[0] != "1"@[0]);
    }
    assert("3"@ != "1"@) by {
        assert("3"@[0] != "1"@[0]);
    }
    assert("3"@ != "2"@) by {
        assert("3"@[0] != "2"@[0]);
    }
    assert("4"@ != "1"@) by {
        assert("4"@[0] != "1"@[0]);
    }
    assert("4"@ != "2"@) by {
        assert("4"@[0] != "2"@[0]);
    }
    assert("4"@ != "3"@) by {
        assert("4"@[0] != "3"@[0]);
    }
    assert("5"@ != "1"@) by {
        assert("5"@[0] != "1"@[0]);
    }
    assert("5"@ != "2"@) by {
        assert("5"@[0] != "2"@[0]);
    }
    assert("5"@ != "3"@) by {
        assert("5"@[0] != "3"@[0]);
    }
    assert("5"@ != "4"@) by {
        assert("5"@[0] != "4"@[0]);
    }
    assert("q"@ != "1"@) by {
        assert("q"@[0] != "1"@[0]);
    }
    assert("q"@ != "2"@) by {
        assert("q"@[0] != "2"@[0]);
    }
    assert("q"@ != "3"@) by {
        assert("q"@[0] != "3"@[0]);
    }
    assert("q"@ != "4"@) by {
        assert("q"@[0] != "4"@[0]);
    }
    assert("q"@ != "5"@) by {
        assert("q"@[0] != "5"@[0]);
    }
    assert("path"@ != "list"@) by {
        assert("path"@[0] != "list"@[0]);
    }
    assert("quit"@ != "list"@) by {
        assert("quit"@[0] != "list"@[0]);
    }
    assert("quit"@ != "path"@) by {
        assert("quit"@[0] != "path"@[0]);
    }
    assert("exit"@ != "list"@) by {
        assert("exit"@[0] != "list"@[0]);
    }
    assert("exit"@ != "path"@) by {
        assert("exit"@[0] != "path"@[0]);
    }
    assert("exit"@ != "quit"@) by {
        assert("exit"@[0] != "quit"@[0]);
    }
    assert("decrypt"@ != "extract"@) by {
        assert("decrypt"@[0] != "extract"@[0]);
    }
}

} // verus!
