use bin_extract::extract::{
    buildings_from_events, extract_buildings, extract_gamedata, extract_items, extract_localization,
    extract_mobs, extract_spells, extract_world, gamedata_from_events, items_from_events,
    localization_from_events, mobs_from_events, spells_from_events, world_from_events, ExtractError,
};
use bin_extract::xml::{get_attr, read_xml_events, XmlEvent, XmlTag};

fn tag(name: &str, attrs: &[(&str, &str)]) -> XmlTag {
    XmlTag {
        name: name.as_bytes().to_vec(),
        attributes: attrs.iter().map(|(k, v)| (k.as_bytes().to_vec(), v.as_bytes().to_vec())).collect(),
    }
}

fn start(name: &str, attrs: &[(&str, &str)]) -> XmlEvent {
    XmlEvent::Start(tag(name, attrs))
}

fn empty(name: &str, attrs: &[(&str, &str)]) -> XmlEvent {
    XmlEvent::Empty(tag(name, attrs))
}

fn end(name: &str) -> XmlEvent {
    XmlEvent::End(name.as_bytes().to_vec())
}

#[test]
fn read_xml_events_yields_tags_text_and_eof() {
    let events = read_xml_events("<a x=\"1\"><b/>hi &amp; bye</a>", false);
    assert_eq!(events.len(), 5);
    match &events[0] {
        XmlEvent::Start(t) => {
            assert_eq!(t.name, b"a".to_vec());
            assert_eq!(t.attributes, vec![(b"x".to_vec(), b"1".to_vec())]);
        },
        other => panic!("unexpected {:?}", other),
    }
    assert!(matches!(&events[1], XmlEvent::Empty(t) if t.name == b"b".to_vec()));
    assert!(matches!(&events[2], XmlEvent::Text(Some(s)) if s == "hi & bye"));
    assert!(matches!(&events[3], XmlEvent::End(n) if n == &b"a".to_vec()));
    assert!(matches!(&events[4], XmlEvent::Eof));
}

#[test]
fn read_xml_events_stops_at_an_error() {
    let events = read_xml_events("<a></b><c/>", false);
    assert!(matches!(events.last(), Some(XmlEvent::Error(_))));
    assert!(events.len() <= 2);
}

#[test]
fn read_xml_events_trims_text_when_asked() {
    let events = read_xml_events("<a>  x  </a>", true);
    assert!(matches!(&events[1], XmlEvent::Text(Some(s)) if s == "x"));
    let events = read_xml_events("<a>  x  </a>", false);
    assert!(matches!(&events[1], XmlEvent::Text(Some(s)) if s == "  x  "));
}

#[test]
fn get_attr_takes_the_first_match_and_keeps_raw_value() {
    let t = tag("item", &[("a", "1"), ("uniquename", "T1&amp;X"), ("uniquename", "second")]);
    assert_eq!(get_attr(&t, "uniquename"), Some("T1&amp;X".to_string()));
    assert_eq!(get_attr(&t, "a"), Some("1".to_string()));
    assert_eq!(get_attr(&t, "missing"), None);
}

#[test]
fn get_attr_decodes_invalid_utf8_lossily() {
    let t = XmlTag { name: b"x".to_vec(), attributes: vec![(b"k".to_vec(), vec![0x41, 0xFF, 0x42])] };
    assert_eq!(get_attr(&t, "k"), Some("A\u{FFFD}B".to_string()));
}

#[test]
fn extract_items_numbers_items_in_document_order() {
    let xml = r#"<items>
        <shopcategories><shopcategory id="x"/></shopcategories>
        <simpleitem uniquename="T1_A"/>
        <weapon uniquename="T2_B"><craftingrequirements/></weapon>
        <equipmentitem uniquename="T3_C"></equipmentitem>
    </items>"#;
    let items = extract_items(xml).unwrap();
    assert_eq!(items.len(), 3);
    assert_eq!((items[0].index, items[0].uniquename.as_str()), (0, "T1_A"));
    assert_eq!((items[1].index, items[1].uniquename.as_str()), (1, "T2_B"));
    assert_eq!((items[2].index, items[2].uniquename.as_str()), (2, "T3_C"));
}

#[test]
fn extract_items_reports_xml_errors() {
    let res = extract_items("<items><a uniquename=\"x\"></b></items>");
    assert!(matches!(res, Err(ExtractError::Xml(_))));
}

#[test]
fn items_from_events_stops_at_eof_and_error() {
    let events = vec![
        empty("a", &[("uniquename", "ONE")]),
        XmlEvent::Text(Some("t".to_string())),
        start("b", &[("uniquename", "TWO")]),
        XmlEvent::Eof,
        empty("c", &[("uniquename", "THREE")]),
    ];
    let items = items_from_events(&events).unwrap();
    assert_eq!(items.len(), 2);
    assert_eq!(items[1].index, 1);
    assert_eq!(items[1].uniquename, "TWO");

    let events = vec![
        empty("a", &[("uniquename", "ONE")]),
        XmlEvent::Error("boom".to_string()),
        empty("c", &[("uniquename", "THREE")]),
    ];
    assert!(matches!(items_from_events(&events), Err(ExtractError::Xml(m)) if m == "boom"));

    let events = vec![empty("a", &[("uniquename", "ONE")]), end("a")];
    assert_eq!(items_from_events(&events).unwrap().len(), 1);
}

#[test]
fn extract_mobs_keeps_only_mob_tags_with_a_name() {
    let xml = r#"<Mobs><Mob uniquename="M1"/><Mob/><mob uniquename="lower"/><Loot uniquename="L"/><Mob uniquename="M2"></Mob></Mobs>"#;
    let mobs = extract_mobs(xml).unwrap();
    assert_eq!(mobs.len(), 2);
    assert_eq!((mobs[0].index, mobs[0].uniquename.as_str()), (0, "M1"));
    assert_eq!((mobs[1].index, mobs[1].uniquename.as_str()), (1, "M2"));
}

#[test]
fn mobs_from_events_counts_only_mobs() {
    let events = vec![empty("Mob", &[("x", "1")]), empty("Mob", &[("uniquename", "A")]), XmlEvent::Eof];
    let mobs = mobs_from_events(&events).unwrap();
    assert_eq!(mobs.len(), 1);
    assert_eq!(mobs[0].index, 0);
}

#[test]
fn extract_spells_takes_uniquename_then_name_then_empty() {
    let xml = r#"<spells>
        <activespell uniquename="FIRE" name="ignored"/>
        <passivespell name="CALM"/>
        <togglespell/>
        <spell uniquename="NOT_A_SPELL_TAG"/>
    </spells>"#;
    let spells = extract_spells(xml).unwrap();
    assert_eq!(spells.len(), 3);
    assert_eq!((spells[0].index, spells[0].name.as_str()), (0, "FIRE"));
    assert_eq!((spells[1].index, spells[1].name.as_str()), (1, "CALM"));
    assert_eq!((spells[2].index, spells[2].name.as_str()), (2, ""));
}

#[test]
fn spells_from_events_example() {
    let events = vec![start("togglespell", &[("name", "N")]), end("togglespell")];
    let spells = spells_from_events(&events).unwrap();
    assert_eq!(spells.len(), 1);
    assert_eq!(spells[0].name, "N");
}

#[test]
fn extract_buildings_recognises_building_tags() {
    let xml = r#"<buildings>
        <building uniquename="TOO_SHORT"/>
        <farmbuilding uniquename="FARM" displayname="Farm"/>
        <labourer uniquename="LAB"/>
        <fortificationtype displayname="Wall"/>
        <durabilitythresholddefinition/>
        <buildingx uniquename="NOPE"/>
    </buildings>"#;
    let b = extract_buildings(xml).unwrap();
    assert_eq!(b.len(), 4);
    assert_eq!((b[0].index, b[0].uniquename.as_str(), b[0].displayname.as_str()), (0, "FARM", "Farm"));
    assert_eq!((b[1].index, b[1].uniquename.as_str(), b[1].displayname.as_str()), (1, "LAB", ""));
    assert_eq!((b[2].index, b[2].uniquename.as_str(), b[2].displayname.as_str()), (2, "", "Wall"));
    assert_eq!((b[3].index, b[3].uniquename.as_str(), b[3].displayname.as_str()), (3, "", ""));
}

#[test]
fn buildings_from_events_example() {
    let events = vec![empty("craftbuilding", &[("uniquename", "C")]), XmlEvent::Other, XmlEvent::Eof];
    let b = buildings_from_events(&events).unwrap();
    assert_eq!(b.len(), 1);
    assert_eq!(b[0].uniquename, "C");
}

#[test]
fn extract_gamedata_reads_name_or_key_and_value() {
    let xml = r#"<gamedata><setting name="A" value="1"/><entry key="B"/><x value="ignored"/><y name="C" key="D" value="3"></y></gamedata>"#;
    let g = extract_gamedata(xml).unwrap();
    assert_eq!(g.len(), 3);
    assert_eq!((g[0].key.as_str(), g[0].value.as_str()), ("A", "1"));
    assert_eq!((g[1].key.as_str(), g[1].value.as_str()), ("B", ""));
    assert_eq!((g[2].key.as_str(), g[2].value.as_str()), ("C", "3"));
}

#[test]
fn gamedata_from_events_reports_error() {
    let events = vec![empty("s", &[("name", "A")]), XmlEvent::Error("bad".to_string())];
    assert!(matches!(gamedata_from_events(&events), Err(ExtractError::Xml(m)) if m == "bad"));
}

#[test]
fn extract_world_collects_closed_clusters() {
    let xml = r#"<world>
        <biome type="ignored_outside"/>
        <cluster id="0001" displayname="Town" type="SAFE">
            <biome type="forest"/>
        </cluster>
        <cluster id="0002" type="OPEN"></cluster>
        <cluster id="0003"/>
        <biome type="swamp"/>
        <other/>
    </world>"#;
    let clusters = extract_world(xml).unwrap();
    assert_eq!(clusters.len(), 2);
    assert_eq!(clusters[0].id, "0001");
    assert_eq!(clusters[0].displayname, "Town");
    assert_eq!(clusters[0].cluster_type, "SAFE");
    assert_eq!(clusters[0].biome, "forest");
    assert_eq!(clusters[1].id, "0002");
    assert_eq!(clusters[1].displayname, "");
    assert_eq!(clusters[1].cluster_type, "OPEN");
    assert_eq!(clusters[1].biome, "");
}

#[test]
fn world_from_events_closes_a_self_closing_cluster_later() {
    let events = vec![
        empty("cluster", &[("id", "A")]),
        empty("biome", &[("type", "desert")]),
        end("cluster"),
        end("cluster"),
        XmlEvent::Eof,
    ];
    let clusters = world_from_events(&events).unwrap();
    assert_eq!(clusters.len(), 1);
    assert_eq!(clusters[0].id, "A");
    assert_eq!(clusters[0].biome, "desert");
}

#[test]
fn extract_localization_reads_units() {
    let xml = r#"<tmx><body>
        <tu tuid="A">
            <tuv xml:lang="EN-US"><seg>Hello</seg></tuv>
            <tuv xml:lang="DE-DE"><seg>Hallo</seg></tuv>
        </tu>
        <tu tuid="B">
            <tuv lang="FR-FR"><seg>Salut &amp; bye</seg></tuv>
            <tuv><seg>Default</seg></tuv>
            <tuv xml:lang="FR-FR"><seg>Again</seg></tuv>
        </tu>
    </body></tmx>"#;
    let entries = extract_localization(xml).unwrap();
    let got: Vec<(String, String, String)> =
        entries.iter().map(|e| (e.key.clone(), e.language.clone(), e.value.clone())).collect();
    assert_eq!(
        got,
        vec![
            (String::new(), "EN-US".to_string(), "Hello".to_string()),
            (String::new(), "DE-DE".to_string(), "Hallo".to_string()),
            (String::new(), "FR-FR".to_string(), "Again".to_string()),
            (String::new(), "en-US".to_string(), "Default".to_string()),
        ]
    );
}

#[test]
fn localization_from_events_joins_segment_text_and_ignores_empty_tags() {
    let events = vec![
        start("tu", &[]),
        start("tuv", &[("xml:lang", "PL-PL")]),
        start("seg", &[]),
        XmlEvent::Text(Some("ab".to_string())),
        XmlEvent::Text(None),
        XmlEvent::Text(Some("cd".to_string())),
        end("seg"),
        XmlEvent::Text(Some("outside".to_string())),
        end("tuv"),
        empty("tu", &[]),
        end("tu"),
        end("tu"),
        XmlEvent::Eof,
    ];
    let entries = localization_from_events(&events).unwrap();
    assert_eq!(entries.len(), 2);
    for e in &entries {
        assert_eq!(e.key, "");
        assert_eq!(e.language, "PL-PL");
        assert_eq!(e.value, "abcd");
    }
}

#[test]
fn extract_localization_reports_errors() {
    assert!(matches!(extract_localization("<tmx><tu></tuv></tmx>"), Err(ExtractError::Xml(_))));
}
