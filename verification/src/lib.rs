//! Command matching, learned aliases and command-pack handling for a voice assistant.
pub mod text;
pub mod similarity;
pub mod commands;
pub mod learned;
pub mod hash;
pub mod matching;
pub mod system;

pub use commands::{
    collect_command_packs, command_action, get_command_by_id, legacy_command_pack, list_paths,
    lua_script_name, missing_script_error, pack_format, unknown_command_error, CommandAction, JCommand, JCommandsList, LangEntries,
    LegacyYamlCommandAction, LegacyYamlCommandItem, LegacyYamlCommandsList, LegacyYamlVoice,
    PackFormat,
};
pub use hash::commands_hash;
pub use learned::{
    fetch_learned_alias_command, fetch_learned_command, learn_alias, learn_alias_at,
    LearnedCommandAlias, LearnedCommandsFile,
};
pub use matching::{pick_command_match, template_phrase_match, word_overlap_matches, TemplateMatch};
pub use similarity::{similarity, Similarity};
pub use system::{
    app_ram_usage_mb, app_running, find_app_process, pick_temperature_sensor, script_log_level,
    LogLevel, ProcessInfo,
};
pub use text::{normalize_phrase, split_whitespace, trimmed_lowercase};
