use babu::commands::{decimal_digits, LEGACY_TIMEOUT_MS};
use babu::hash::to_hex_lower;
use babu::similarity::fraction_less;
use babu::{
    app_ram_usage_mb, app_running, collect_command_packs, command_action, commands_hash,
    fetch_learned_alias_command, fetch_learned_command, find_app_process, get_command_by_id,
    learn_alias, learn_alias_at, legacy_command_pack, list_paths, lua_script_name,
    missing_script_error, normalize_phrase, pack_format,
    pick_command_match, pick_temperature_sensor, script_log_level, similarity, split_whitespace,
    template_phrase_match, unknown_command_error, word_overlap_matches, CommandAction, JCommand,
    JCommandsList, LangEntries, LearnedCommandAlias, LearnedCommandsFile, LegacyYamlCommandAction,
    LegacyYamlCommandItem, LegacyYamlCommandsList, LegacyYamlVoice, LogLevel, PackFormat,
    ProcessInfo, Similarity, TemplateMatch,
};

fn s(x: &str) -> String {
    x.to_string()
}

fn chars(x: &str) -> Vec<char> {
    x.chars().collect()
}

fn words(x: &str) -> Vec<Vec<char>> {
    x.split_whitespace().map(|w| w.chars().collect()).collect()
}

fn command(id: &str, lang: &str, phrases: &[&str]) -> JCommand {
    JCommand {
        id: s(id),
        cmd_type: s("voice"),
        description: String::new(),
        exe_path: String::new(),
        exe_args: vec![],
        cli_cmd: String::new(),
        cli_args: vec![],
        script: String::new(),
        sandbox: String::new(),
        timeout: 0,
        sounds: vec![],
        phrases: vec![LangEntries {
            lang: s(lang),
            items: phrases.iter().map(|p| s(p)).collect(),
        }],
    }
}

fn packs() -> Vec<JCommandsList> {
    vec![
        JCommandsList {
            path: s("/commands/first"),
            commands: vec![command("browser", "en", &["open browser"]), command("hello", "en", &["hello", "hi"])],
        },
        JCommandsList {
            path: s("/commands/second"),
            commands: vec![command("hello", "ru", &["привет"]), command("music", "en", &["play music"])],
        },
    ]
}

fn alias(phrase: &str, id: &str, lang: &str) -> LearnedCommandAlias {
    LearnedCommandAlias { phrase: s(phrase), command_id: s(id), lang: s(lang), created_at_unix: 1 }
}

fn legacy_item(action: &str, phrases: &[&str]) -> LegacyYamlCommandItem {
    LegacyYamlCommandItem {
        command: LegacyYamlCommandAction {
            action: s(action),
            exe_path: s("run.exe"),
            exe_args: vec![s("-x")],
            cli_cmd: String::new(),
            cli_args: vec![],
        },
        voice: LegacyYamlVoice { sounds: vec![s("ok.wav")] },
        phrases: phrases.iter().map(|p| s(p)).collect(),
    }
}

#[test]
fn normalize_collapses_whitespace_and_case() {
    assert_eq!(normalize_phrase("  Hello   WORLD \t\n"), "hello world");
    assert_eq!(normalize_phrase("ОТКРОЙ\u{3000}Браузер"), "открой браузер");
}

#[test]
fn normalize_blank_is_empty() {
    assert_eq!(normalize_phrase(""), "");
    assert_eq!(normalize_phrase(" \t \u{a0} "), "");
}

#[test]
fn split_whitespace_words() {
    assert_eq!(split_whitespace(&chars("  a bc\td  ")), vec![chars("a"), chars("bc"), chars("d")]);
    assert!(split_whitespace(&chars("   ")).is_empty());
}

#[test]
fn get_command_by_id_returns_first() {
    let p = packs();
    let (path, cmd) = get_command_by_id(&p, "hello").unwrap();
    assert_eq!(path, "/commands/first");
    assert_eq!(cmd.phrases[0].lang, "en");
    let (path, cmd) = get_command_by_id(&p, "music").unwrap();
    assert_eq!(path, "/commands/second");
    assert_eq!(cmd.id, "music");
    assert!(get_command_by_id(&p, "missing").is_none());
}

#[test]
fn list_paths_in_order() {
    assert_eq!(list_paths(&packs()), vec!["/commands/first", "/commands/second"]);
    assert!(list_paths(&[]).is_empty());
}

#[test]
fn get_phrases_by_language() {
    let c = command("x", "en", &["one", "two"]);
    assert_eq!(c.get_phrases("en"), vec![s("one"), s("two")]);
    assert!(c.get_phrases("ru").is_empty());
}

#[test]
fn legacy_item_into_command() {
    let c = legacy_item("exe", &["запусти"]).into_command("my-cool-pack", 3);
    assert_eq!(c.id, "my_cool_pack_3");
    assert_eq!(c.cmd_type, "exe");
    assert_eq!(c.exe_path, "run.exe");
    assert_eq!(c.exe_args, vec![s("-x")]);
    assert_eq!(c.timeout, LEGACY_TIMEOUT_MS);
    assert_eq!(c.timeout, 10_000);
    assert_eq!(c.phrases.len(), 1);
    assert_eq!(c.phrases[0].lang, "ru");
    assert_eq!(c.phrases[0].items, vec![s("запусти")]);
    assert_eq!(c.sounds[0].lang, "ru");
    assert_eq!(c.sounds[0].items, vec![s("ok.wav")]);
    assert!(c.description.is_empty() && c.script.is_empty() && c.sandbox.is_empty());
}

#[test]
fn legacy_pack_numbers_from_one() {
    let file = LegacyYamlCommandsList { list: vec![legacy_item("a", &[]), legacy_item("b", &[])] };
    let pack = legacy_command_pack(s("/c/old-pack"), Some("old-pack"), file);
    assert_eq!(pack.path, "/c/old-pack");
    assert_eq!(pack.commands.len(), 2);
    assert_eq!(pack.commands[0].id, "old_pack_1");
    assert_eq!(pack.commands[1].id, "old_pack_2");
    assert_eq!(pack.commands[1].cmd_type, "b");
}

#[test]
fn legacy_pack_without_directory_name() {
    let file = LegacyYamlCommandsList { list: vec![legacy_item("a", &[])] };
    let pack = legacy_command_pack(s("/"), None, file);
    assert_eq!(pack.commands[0].id, "legacy_command_1");
}

#[test]
fn collect_packs_keeps_present_in_order() {
    let mut p = packs();
    let second = p.pop().unwrap();
    let first = p.pop().unwrap();
    let r = collect_command_packs(vec![None, Some(first), None, Some(second)]).unwrap();
    assert_eq!(r.len(), 2);
    assert_eq!(r[0].path, "/commands/first");
    assert_eq!(r[1].path, "/commands/second");
}

#[test]
fn collect_packs_fails_when_empty() {
    assert_eq!(collect_command_packs(vec![None, None]).unwrap_err(), "No commands found");
    assert_eq!(collect_command_packs(vec![]).unwrap_err(), "No commands found");
}

#[test]
fn pack_format_prefers_toml() {
    assert_eq!(pack_format(true, true), Some(PackFormat::Toml));
    assert_eq!(pack_format(false, true), Some(PackFormat::LegacyYaml));
    assert_eq!(pack_format(false, false), None);
}

#[test]
fn command_actions_by_type() {
    assert_eq!(command_action("voice"), CommandAction::Voice);
    assert_eq!(command_action("ahk"), CommandAction::Ahk);
    assert_eq!(command_action("cli"), CommandAction::Cli);
    assert_eq!(command_action("terminate"), CommandAction::Terminate);
    assert_eq!(command_action("stop_chaining"), CommandAction::StopChaining);
    assert_eq!(command_action("Voice"), CommandAction::Unknown);
    assert_eq!(command_action("lua"), CommandAction::Lua);
    assert_eq!(command_action("LUA"), CommandAction::Unknown);
    assert_eq!(unknown_command_error("foo"), "Command type unknown: foo");
}

#[test]
fn similarity_counts_aligned_items() {
    let r = similarity(&chars("Hello world!"), &chars("Holly grail!"));
    assert_eq!(r, Similarity { matched: 7, total: 24 });
    let e = similarity(&chars("abc"), &chars("abc"));
    assert_eq!(e, Similarity { matched: 3, total: 6 });
    let z = similarity(&[], &[]);
    assert_eq!(z, Similarity { matched: 0, total: 0 });
    let n = similarity(&chars("abc"), &chars("xyz"));
    assert_eq!(n.matched, 0);
}

#[test]
fn fraction_comparison_is_exact() {
    assert!(fraction_less(1, 3, 1, 2));
    assert!(!fraction_less(1, 2, 1, 3));
    assert!(!fraction_less(2, 4, 1, 2));
    assert!(fraction_less(u128::MAX - 1, u128::MAX, u128::MAX, u128::MAX));
}

#[test]
fn learn_alias_rejects_empty_phrase() {
    let mut f = LearnedCommandsFile { aliases: vec![alias("x", "y", "en")] };
    assert_eq!(learn_alias(&mut f, "  \t ", "browser", "en").unwrap_err(), "Cannot learn an empty phrase");
    assert_eq!(f.aliases.len(), 1);
}

#[test]
fn learn_alias_rejects_blank_command_id() {
    let mut f = LearnedCommandsFile { aliases: vec![] };
    assert_eq!(
        learn_alias(&mut f, "go", "   ", "en").unwrap_err(),
        "Cannot learn an alias for an empty command id"
    );
    assert!(f.aliases.is_empty());
}

#[test]
fn learn_alias_adds_normalized_phrase() {
    let mut f = LearnedCommandsFile { aliases: vec![] };
    learn_alias_at(&mut f, "  Open  THE Browser ", "browser", "en", 42).unwrap();
    assert_eq!(f.aliases.len(), 1);
    assert_eq!(f.aliases[0].phrase, "open the browser");
    assert_eq!(f.aliases[0].command_id, "browser");
    assert_eq!(f.aliases[0].lang, "en");
    assert_eq!(f.aliases[0].created_at_unix, 42);
}

#[test]
fn learn_alias_updates_existing_alias() {
    let mut f = LearnedCommandsFile {
        aliases: vec![alias("Open the browser", "old", "ru"), alias("Open  the BROWSER", "old", "en")],
    };
    learn_alias_at(&mut f, "open the browser", "browser", "en", 7).unwrap();
    assert_eq!(f.aliases.len(), 2);
    assert_eq!(f.aliases[0].command_id, "old");
    assert_eq!(f.aliases[1].phrase, "Open  the BROWSER");
    assert_eq!(f.aliases[1].command_id, "browser");
    assert_eq!(f.aliases[1].created_at_unix, 7);
}

#[test]
fn learn_alias_stamps_time() {
    let mut f = LearnedCommandsFile { aliases: vec![] };
    learn_alias(&mut f, "Hi there", "hello", "en").unwrap();
    assert_eq!(f.aliases[0].phrase, "hi there");
    assert!(f.aliases[0].created_at_unix > 0);
}

#[test]
fn learned_alias_is_found_again() {
    let p = packs();
    let mut f = LearnedCommandsFile { aliases: vec![] };
    learn_alias_at(&mut f, "Surf The Web", "browser", "en", 1).unwrap();
    let (path, cmd) = fetch_learned_alias_command("  surf the   WEB", "en", &f.aliases, &p).unwrap();
    assert_eq!(path, "/commands/first");
    assert_eq!(cmd.id, "browser");
    assert!(fetch_learned_alias_command("surf the web", "ru", &f.aliases, &p).is_none());
}

#[test]
fn relearning_replaces_alias() {
    let p = packs();
    let mut f = LearnedCommandsFile { aliases: vec![] };
    learn_alias_at(&mut f, "tunes", "browser", "en", 1).unwrap();
    learn_alias_at(&mut f, "Tunes", "music", "en", 2).unwrap();
    assert_eq!(f.aliases.len(), 1);
    let (_, cmd) = fetch_learned_alias_command("tunes", "en", &f.aliases, &p).unwrap();
    assert_eq!(cmd.id, "music");
}

#[test]
fn learned_alias_fuzzy_threshold() {
    let p = packs();
    let aliases = vec![alias("open browser", "browser", "en")];
    // 22 of 23 characters align: about 95.7%, above 88%.
    let (_, cmd) = fetch_learned_command("open browsr", "en", &aliases, &p).unwrap();
    assert_eq!(cmd.id, "browser");
    // far below 88%
    assert!(fetch_learned_command("play", "en", &aliases, &p).is_none());
}

#[test]
fn learned_alias_prefers_best_then_first() {
    let p = packs();
    let aliases = vec![
        alias("open browsers", "hello", "en"),
        alias("open browser", "browser", "en"),
        alias("open browser", "music", "en"),
    ];
    let (_, cmd) = fetch_learned_command("open browser", "en", &aliases, &p).unwrap();
    assert_eq!(cmd.id, "browser");
}

#[test]
fn learned_alias_to_missing_command() {
    let p = packs();
    let aliases = vec![alias("go", "nowhere", "en")];
    assert!(fetch_learned_command("go", "en", &aliases, &p).is_none());
}

#[test]
fn fetch_learned_alias_empty_phrase() {
    let p = packs();
    let aliases = vec![alias("go", "browser", "en")];
    assert!(fetch_learned_alias_command("   ", "en", &aliases, &p).is_none());
}

#[test]
fn commands_hash_exact_value() {
    let p = vec![JCommandsList {
        path: s("/p"),
        commands: vec![command("b", "en", &["open browser"]), command("a", "en", &["hello", "hi"]), command("c", "ru", &["да"])],
    }];
    // "en|" + "a" "hello" "hi" + "b" "open browser" + "c" (no phrases in "en")
    assert_eq!(commands_hash(&p, "en"), "dc6feca518421d7167763203a4eb9b7e9018f0e5714d5b2d3eb41f9fd4629aef");
}

#[test]
fn commands_hash_of_nothing() {
    assert_eq!(commands_hash(&[], "ru"), "aef7f25b54feef9e8d1c1c6ed180a69a73a5ab52b02f3bd22bab73a0aa9b77bf");
}

#[test]
fn commands_hash_ignores_pack_order() {
    let q1 = vec![
        JCommandsList { path: s("1"), commands: vec![command("x", "en", &["one"]), command("y", "en", &["uno"])] },
        JCommandsList { path: s("2"), commands: vec![command("w", "en", &["two"])] },
    ];
    let q2 = vec![
        JCommandsList { path: s("2"), commands: vec![command("w", "en", &["two"])] },
        JCommandsList { path: s("1"), commands: vec![command("y", "en", &["uno"]), command("x", "en", &["one"])] },
    ];
    let h = commands_hash(&q1, "en");
    assert_eq!(h.len(), 64);
    assert_eq!(h, commands_hash(&q2, "en"));
    assert_ne!(h, commands_hash(&q1, "ru"));
}

#[test]
fn commands_hash_changes_with_phrases() {
    let q1 = vec![JCommandsList { path: s("1"), commands: vec![command("x", "en", &["one"])] }];
    let q2 = vec![JCommandsList { path: s("1"), commands: vec![command("x", "en", &["uno"])] }];
    assert_ne!(commands_hash(&q1, "en"), commands_hash(&q2, "en"));
}

#[test]
fn template_match_counts_static_words() {
    assert_eq!(
        template_phrase_match(&words("open firefox"), &words("open {app}")),
        Some(TemplateMatch { matched: 1, static_words: 1 })
    );
    // no placeholder: no template score
    assert_eq!(template_phrase_match(&words("open firefox"), &words("open firefox")), None);
    // only placeholders
    assert_eq!(template_phrase_match(&words("open"), &words("{a} {b}")), None);
    // nothing said
    assert_eq!(template_phrase_match(&[], &words("open {app}")), None);
    // one of two static words heard: 50% is below 80%
    assert_eq!(template_phrase_match(&words("open"), &words("open the {app}")), None);
}

#[test]
fn word_overlap_best_matches() {
    let r = word_overlap_matches(&words("open browsr now"), &words("open browser"));
    assert_eq!(r.len(), 3);
    assert_eq!(r[0], Some(Similarity { matched: 4, total: 8 }));
    assert_eq!(r[1], Some(Similarity { matched: 6, total: 13 }));
    assert_eq!(r[2], None);
}

#[test]
fn pick_command_match_rules() {
    assert_eq!(pick_command_match(&[10, 70, 80, 80], 65, 99), Some(2));
    assert_eq!(pick_command_match(&[10, 99, 100], 65, 99), Some(1));
    assert_eq!(pick_command_match(&[10, 65, 20], 65, 99), None);
    assert_eq!(pick_command_match(&[], 65, 99), None);
}

fn proc_info(pid: u32, name: &str, memory: u64) -> ProcessInfo {
    ProcessInfo { pid, name: s(name), memory }
}

#[test]
fn app_process_lookup() {
    let procs = vec![proc_info(1, "init", 10), proc_info(7, "Babu-App.exe", 5 * 1024 * 1024 + 3), proc_info(9, "babu-app", 1)];
    assert_eq!(find_app_process(&procs), Some(1));
    assert!(app_running(&procs));
    assert_eq!(app_ram_usage_mb(&procs), 5);
    let none = vec![proc_info(1, "babu", 10)];
    assert_eq!(find_app_process(&none), None);
    assert!(!app_running(&none));
    assert_eq!(app_ram_usage_mb(&none), 0);
}

#[test]
fn temperature_sensor_choice() {
    let labels = vec![s("acpitz"), s("CPU Package"), s("Core 0")];
    assert_eq!(pick_temperature_sensor(&labels, &[true, false, true]), Some(2));
    assert_eq!(pick_temperature_sensor(&labels, &[true, false, false]), Some(0));
    assert_eq!(pick_temperature_sensor(&labels, &[false, false, false]), None);
    assert_eq!(pick_temperature_sensor(&[], &[]), None);
}

#[test]
fn script_log_levels() {
    assert_eq!(script_log_level("DEBUG"), LogLevel::Debug);
    assert_eq!(script_log_level("Warn"), LogLevel::Warn);
    assert_eq!(script_log_level("error"), LogLevel::Error);
    assert_eq!(script_log_level("info"), LogLevel::Info);
    assert_eq!(script_log_level("verbose"), LogLevel::Info);
}

#[test]
fn decimal_and_hex_digits() {
    assert_eq!(decimal_digits(0), chars("0"));
    assert_eq!(decimal_digits(1203), chars("1203"));
    assert_eq!(to_hex_lower(&[0x00, 0xbe, 0xef, 0x0f]), "00beef0f");
}

#[test]
fn trimmed_lowercase_keeps_inner_spacing() {
    assert_eq!(babu::trimmed_lowercase("  Open  The Door "), chars("open  the door"));
}

#[test]
fn lua_script_names() {
    let mut c = command("lua_cmd", "en", &["run it"]);
    c.cmd_type = s("lua");
    assert_eq!(lua_script_name(&c), "script.lua");
    c.script = s("main.lua");
    assert_eq!(lua_script_name(&c), "main.lua");
    assert_eq!(missing_script_error("/p/main.lua"), "Lua script not found: /p/main.lua");
}

#[test]
fn legacy_ids_are_distinct() {
    let list: Vec<LegacyYamlCommandItem> = (0..12).map(|_| legacy_item("a", &[])).collect();
    let pack = legacy_command_pack(s("/c/p-1"), Some("p-1"), LegacyYamlCommandsList { list });
    assert_eq!(pack.commands[0].id, "p_1_1");
    assert_eq!(pack.commands[10].id, "p_1_11");
    for i in 0..pack.commands.len() {
        for j in 0..pack.commands.len() {
            if i != j {
                assert_ne!(pack.commands[i].id, pack.commands[j].id);
            }
        }
    }
}

#[test]
fn template_match_ignores_word_order() {
    let cmd = words("open the {app} now");
    let a = template_phrase_match(&words("open the firefox now"), &cmd);
    let b = template_phrase_match(&words("now firefox the open"), &cmd);
    assert_eq!(a, Some(TemplateMatch { matched: 3, static_words: 3 }));
    assert_eq!(a, b);
}

#[test]
fn template_match_more_words_never_lower() {
    let cmd = words("open the {app} right now please");
    let few = template_phrase_match(&words("open the firefox right now"), &cmd);
    let more = template_phrase_match(&words("open the firefox right now please"), &cmd);
    assert_eq!(few, Some(TemplateMatch { matched: 4, static_words: 5 }));
    assert_eq!(more, Some(TemplateMatch { matched: 5, static_words: 5 }));
}

#[test]
fn learned_aliases_in_other_languages_ignored() {
    let p = packs();
    let only = vec![alias("open browser", "browser", "en")];
    let mixed = vec![
        alias("open browser", "music", "ru"),
        alias("open browser", "browser", "en"),
        alias("open browsers", "hello", "de"),
    ];
    let (_, a) = fetch_learned_command("open browser", "en", &only, &p).unwrap();
    let (_, b) = fetch_learned_command("open browser", "en", &mixed, &p).unwrap();
    assert_eq!(a.id, "browser");
    assert_eq!(b.id, "browser");
}

#[test]
fn learning_keeps_one_alias_per_phrase() {
    let mut f = LearnedCommandsFile { aliases: vec![] };
    learn_alias_at(&mut f, "Play Music", "music", "en", 1).unwrap();
    learn_alias_at(&mut f, "play   music", "hello", "en", 2).unwrap();
    learn_alias_at(&mut f, "play music", "music", "ru", 3).unwrap();
    assert_eq!(f.aliases.len(), 2);
    assert_eq!(f.aliases[0].command_id, "hello");
    assert_eq!(f.aliases[1].lang, "ru");
}

#[test]
fn blank_phrase_is_refused_and_resolves_to_nothing() {
    let p = packs();
    let mut f = LearnedCommandsFile { aliases: vec![alias("go", "browser", "en")] };
    assert_eq!(
        learn_alias_at(&mut f, "\u{2003}\n", "browser", "en", 5).unwrap_err(),
        "Cannot learn an empty phrase"
    );
    assert_eq!(f.aliases.len(), 1);
    assert!(fetch_learned_alias_command("\u{2003}", "en", &f.aliases, &p).is_none());
}

#[test]
fn commands_hash_is_lowercase_hex_of_64() {
    let h = commands_hash(&packs(), "en");
    assert_eq!(h.len(), 64);
    assert!(h.chars().all(|c| c.is_ascii_digit() || ('a'..='f').contains(&c)));
}

#[test]
fn phrases_of_the_one_entry_of_a_language() {
    let mut c = command("x", "en", &["one"]);
    c.phrases.push(LangEntries { lang: s("ru"), items: vec![s("odin")] });
    assert_eq!(c.get_phrases("ru"), vec![s("odin")]);
    assert_eq!(c.get_phrases("en"), vec![s("one")]);
    assert!(c.get_phrases("de").is_empty());
}
