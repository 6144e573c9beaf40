use rune_agent::champions::ChampionTable;
use rune_agent::json::{ability_patch_body, escape_json, loadout_to_json};
use rune_agent::loadout::{make_community_name, make_saved_name, name_has_marker, Loadout};
use rune_agent::provision::champion_query_name;
use rune_agent::text::{
    i64_to_dec, normalize_alpha, parse_i64, parse_u64, str_contains, str_eq, str_lex_lt,
    u64_to_dec,
};
use rune_agent::transport::{auth_header, make_service_url, make_stream_addr};

#[test]
fn decimal_rendering_is_exact() {
    assert_eq!(u64_to_dec(0), "0");
    assert_eq!(u64_to_dec(7), "7");
    assert_eq!(u64_to_dec(1234567890), "1234567890");
    assert_eq!(u64_to_dec(u64::MAX), "18446744073709551615");
    assert_eq!(i64_to_dec(-42), "-42");
    assert_eq!(i64_to_dec(0), "0");
    assert_eq!(i64_to_dec(i64::MIN), "-9223372036854775808");
}

#[test]
fn unsigned_parsing_accepts_exactly_digit_strings() {
    assert_eq!(parse_u64("123"), Some(123));
    assert_eq!(parse_u64("0"), Some(0));
    assert_eq!(parse_u64("18446744073709551615"), Some(u64::MAX));
    assert_eq!(parse_u64("18446744073709551616"), None);
    assert_eq!(parse_u64(""), None);
    assert_eq!(parse_u64("12a"), None);
    assert_eq!(parse_u64("-3"), None);
    assert_eq!(parse_u64(" 3"), None);
}

#[test]
fn signed_parsing_handles_the_sign() {
    assert_eq!(parse_i64("8100"), Some(8100));
    assert_eq!(parse_i64("-8100"), Some(-8100));
    assert_eq!(parse_i64("-9223372036854775808"), Some(i64::MIN));
    assert_eq!(parse_i64("9223372036854775808"), None);
    assert_eq!(parse_i64("-"), None);
    assert_eq!(parse_i64("x"), None);
}

#[test]
fn string_helpers_compare_by_content() {
    assert!(str_eq("abc", "abc"));
    assert!(!str_eq("abc", "abd"));
    assert!(str_lex_lt("Bar", "Foo"));
    assert!(str_lex_lt("Foo", "Fooo"));
    assert!(!str_lex_lt("Foo", "Foo"));
    assert!(str_contains("my page (RP) here", "(RP)"));
    assert!(!str_contains("my page", "(RP)"));
}

#[test]
fn name_normalization_keeps_lowercase_letters() {
    assert_eq!(normalize_alpha("Nunu & Willump"), "nunuwillump");
    assert_eq!(normalize_alpha("Kai'Sa"), "kaisa");
    assert_eq!(normalize_alpha("LeBlanc"), "leblanc");
    assert_eq!(normalize_alpha("123"), "");
}

#[test]
fn provider_query_name_special_cases_one_champion() {
    assert_eq!(champion_query_name("Nunu & Willump"), "nunu");
    assert_eq!(champion_query_name("Miss Fortune"), "missfortune");
}

#[test]
fn managed_names_carry_the_marker() {
    let saved = make_saved_name("Ahri");
    assert_eq!(saved, "Ahri (saved) (RP)");
    assert!(name_has_marker(&saved));
    let tagged = make_community_name("Electrocute");
    assert_eq!(tagged, "Electrocute (mobalytics) (RP)");
    assert!(name_has_marker(&tagged));
    assert!(!name_has_marker("a page of my own"));
}

#[test]
fn authorization_header_encodes_the_credentials() {
    assert_eq!(auth_header("token").unwrap(), "Basic cmlvdDp0b2tlbg==");
    assert_eq!(auth_header("").unwrap(), "Basic cmlvdDo=");
}

#[test]
fn endpoint_addresses_carry_the_port() {
    assert_eq!(
        make_service_url(49152, "/lol-perks/v1/pages"),
        "https://127.0.0.1:49152/lol-perks/v1/pages"
    );
    assert_eq!(make_stream_addr(443), "127.0.0.1:443");
}

#[test]
fn json_escaping_covers_quotes_backslashes_and_controls() {
    assert_eq!(escape_json("plain"), "plain");
    assert_eq!(escape_json("a\"b\\c"), "a\\\"b\\\\c");
    assert_eq!(escape_json("line\nbreak"), "line\\u000abreak");
    assert_eq!(escape_json(""), "");
}

#[test]
fn loadout_json_is_byte_exact() {
    let l = Loadout {
        current: true,
        id: 81,
        is_active: false,
        is_deletable: true,
        is_editable: true,
        is_valid: true,
        last_modified: 1700000000,
        name: "Ahri \"saved\" (RP)".to_string(),
        order: 2,
        primary_style_id: 8100,
        selected_perk_ids: vec![8112, 8126, -1],
        sub_style_id: 8300,
    };
    let expected = "{\"autoModifiedSelections\":[],\"current\":true,\"id\":81,\"isActive\":false,\"isDeletable\":true,\"isEditable\":true,\"isValid\":true,\"lastModified\":1700000000,\"name\":\"Ahri \\\"saved\\\" (RP)\",\"order\":2,\"primaryStyleId\":8100,\"selectedPerkIds\":[8112,8126,-1],\"subStyleId\":8300}";
    assert_eq!(loadout_to_json(&l), expected);
}

#[test]
fn empty_perk_list_serializes_as_empty_array() {
    let l = Loadout {
        current: false,
        id: 0,
        is_active: false,
        is_deletable: false,
        is_editable: false,
        is_valid: false,
        last_modified: 0,
        name: String::new(),
        order: 0,
        primary_style_id: 0,
        selected_perk_ids: Vec::new(),
        sub_style_id: 0,
    };
    let text = loadout_to_json(&l);
    assert!(text.contains("\"selectedPerkIds\":[]"));
}

#[test]
fn ability_patch_body_matches_the_wire_format() {
    assert_eq!(ability_patch_body((11, 4)), "{ \"spell1Id\": 11, \"spell2Id\": 4 }");
}

#[test]
fn champion_table_rejects_duplicate_ids() {
    let table = ChampionTable::new(vec![(103, "Ahri".to_string()), (64, "Lee Sin".to_string())])
        .unwrap();
    assert_eq!(table.lookup(103), Some(&"Ahri".to_string()));
    assert_eq!(table.lookup(64), Some(&"Lee Sin".to_string()));
    assert_eq!(table.lookup(1), None);
    assert!(ChampionTable::new(vec![(1, "a".to_string()), (1, "b".to_string())]).is_none());
}
