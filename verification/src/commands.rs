use vstd::prelude::*;

use crate::text::{chars_of, str_eq, string_from_chars};
use vstd::string::StringExecFns;

verus! {

/// The strings of one language: a command's phrases or sounds in that language.
#[derive(Debug)]
pub struct LangEntries {
    pub lang: String,
    pub items: Vec<String>,
}

/// A voice command: how it is run and the phrases that trigger it.
#[derive(Debug)]
pub struct JCommand {
    pub id: String,
    pub cmd_type: String,
    pub description: String,
    pub exe_path: String,
    pub exe_args: Vec<String>,
    pub cli_cmd: String,
    pub cli_args: Vec<String>,
    pub script: String,
    pub sandbox: String,
    pub timeout: u64,
    pub sounds: Vec<LangEntries>,
    pub phrases: Vec<LangEntries>,
}

/// A command pack: the directory it was loaded from and its commands.
#[derive(Debug)]
pub struct JCommandsList {
    pub path: String,
    pub commands: Vec<JCommand>,
}

/// The character sequences of a list of strings.
pub open spec fn strings_view(v: Seq<String>) -> Seq<Seq<char>> {
    v.map_values(|s: String| s@)
}

/// The strings that `entries` holds for `lang`: those of the first entry of
/// that language, or none.
pub open spec fn entries_for(entries: Seq<LangEntries>, lang: Seq<char>) -> Seq<Seq<char>>
    decreases entries.len(),
{
    if entries.len() == 0 {
        seq![]
    } else if entries[0].lang@ == lang {
        strings_view(entries[0].items@)
    } else {
        entries_for(entries.drop_first(), lang)
    }
}

/// Each language has at most one entry, as in a map keyed by language.
pub open spec fn distinct_langs(entries: Seq<LangEntries>) -> bool {
    forall|i: int, j: int|
        0 <= i < entries.len() && 0 <= j < entries.len() && i != j ==> #[trigger] entries[i].lang@
            != #[trigger] entries[j].lang@
}

impl JCommand {
    /// The command's phrases and its sounds each hold at most one entry per
    /// language.
    pub open spec fn wf(&self) -> bool {
        distinct_langs(self.phrases@) && distinct_langs(self.sounds@)
    }
}

/// Law: where each language has at most one entry, the strings for `lang`
/// are those of the entry of that language, wherever it stands, and none
/// when no entry has that language.
pub proof fn lemma_entries_for_unique(entries: Seq<LangEntries>, lang: Seq<char>)
    requires
        distinct_langs(entries),
    ensures
        forall|k: int|
            0 <= k < entries.len() && #[trigger] entries[k].lang@ == lang ==> entries_for(
                entries,
                lang,
            ) == strings_view(entries[k].items@),
        (forall|k: int| 0 <= k < entries.len() ==> #[trigger] entries[k].lang@ != lang)
            ==> entries_for(entries, lang) == Seq::<Seq<char>>::empty(),
    decreases entries.len(),
{
    if entries.len() > 0 {
        let rest = entries.drop_first();
        assert forall|i: int, j: int|
            0 <= i < rest.len() && 0 <= j < rest.len() && i != j implies #[trigger] rest[i].lang@
                != #[trigger] rest[j].lang@ by {
            assert(rest[i] == entries[i + 1]);
            assert(rest[j] == entries[j + 1]);
            assert(entries[i + 1].lang@ != entries[j + 1].lang@);
        }
        lemma_entries_for_unique(rest, lang);
        if entries[0].lang@ != lang {
            assert forall|k: int|
                0 <= k < entries.len() && #[trigger] entries[k].lang@ == lang implies entries_for(
                    entries,
                    lang,
                ) == strings_view(entries[k].items@) by {
                assert(rest[k - 1] == entries[k]);
            }
            if forall|k: int| 0 <= k < entries.len() ==> #[trigger] entries[k].lang@ != lang {
                assert forall|k: int| 0 <= k < rest.len() implies #[trigger] rest[k].lang@ != lang by {
                    assert(rest[k] == entries[k + 1]);
                }
            }
        } else {
            assert forall|k: int|
                0 <= k < entries.len() && #[trigger] entries[k].lang@ == lang implies k == 0 by {
                if k != 0 {
                    assert(entries[0].lang@ != entries[k].lang@);
                }
            }
        }
    }
}

/// A copy of a list of strings.
pub fn clone_strings(v: &Vec<String>) -> (r: Vec<String>)
    ensures
        strings_view(r@) == strings_view(v@),
{
    let mut r: Vec<String> = Vec::new();
    for i in 0..v.len()
        invariant
            strings_view(r@) == strings_view(v@.take(i as int)),
    {
        let c = v[i].clone();
        assert(c@ == v@[i as int]@);
        let ghost old_r = r@;
        r.push(c);
        assert(v@.take(i + 1) =~= v@.take(i as int).push(v@[i as int]));
        assert(strings_view(old_r.push(c)) =~= strings_view(old_r).push(c@));
        assert(strings_view(v@.take(i as int).push(v@[i as int])) =~= strings_view(
            v@.take(i as int),
        ).push(v@[i as int]@));
    }
    assert(v@.take(v@.len() as int) =~= v@);
    r
}

impl JCommand {
    /// The command's phrases in `lang` (none when it has none in that language).
    pub fn get_phrases(&self, lang: &str) -> (r: Vec<String>)
        ensures
            strings_view(r@) == entries_for(self.phrases@, lang@),
    {
        let n = self.phrases.len();
        assert(self.phrases@.skip(0) =~= self.phrases@);
        for i in 0..n
            invariant
                n == self.phrases@.len(),
                entries_for(self.phrases@, lang@) == entries_for(self.phrases@.skip(i as int), lang@),
        {
            assert(self.phrases@.skip(i as int).drop_first() =~= self.phrases@.skip(i + 1));
            if str_eq(self.phrases[i].lang.as_str(), lang) {
                return clone_strings(&self.phrases[i].items);
            }
        }
        Vec::new()
    }
}

/// Command `j` of pack `i` exists and has the identifier `id`.
pub open spec fn command_has_id(lists: Seq<JCommandsList>, i: int, j: int, id: Seq<char>) -> bool {
    &&& 0 <= i < lists.len()
    &&& 0 <= j < lists[i].commands@.len()
    &&& lists[i].commands@[j].id@ == id
}

/// No command before position (`i`, `j`), pack by pack, has the identifier `id`.
pub open spec fn no_id_before(lists: Seq<JCommandsList>, i: int, j: int, id: Seq<char>) -> bool {
    forall|i2: int, j2: int|
        (i2 < i || (i2 == i && j2 < j)) ==> !#[trigger] command_has_id(lists, i2, j2, id)
}

/// `r` is what looking up the identifier `id` among `lists` gives: the first
/// command, pack by pack, with that identifier, with the path of its pack;
/// none when no command has it.
pub open spec fn lookup_result(
    lists: Seq<JCommandsList>,
    id: Seq<char>,
    r: Option<(&String, &JCommand)>,
) -> bool {
    &&& r is None <==> forall|i: int, j: int| !#[trigger] command_has_id(lists, i, j, id)
    &&& r matches Some((p, c)) ==> exists|i: int, j: int|
        #[trigger] command_has_id(lists, i, j, id) && no_id_before(lists, i, j, id) && *p
            == lists[i].path && *c == lists[i].commands@[j]
}

/// Looks up the first command, pack by pack, whose identifier is `id`, and
/// returns it with the path of its pack.
pub fn get_command_by_id<'a>(commands: &'a [JCommandsList], id: &str) -> (r: Option<
    (&'a String, &'a JCommand),
>)
    ensures
        lookup_result(commands@, id@, r),
{
    let n = commands.len();
    for i in 0..n
        invariant
            n == commands@.len(),
            no_id_before(commands@, i as int, 0, id@),
    {
        let list = &commands[i];
        let m = list.commands.len();
        for j in 0..m
            invariant
                n == commands@.len(),
                0 <= i < n,
                *list == commands@[i as int],
                m == list.commands@.len(),
                no_id_before(commands@, i as int, j as int, id@),
        {
            if str_eq(list.commands[j].id.as_str(), id) {
                assert(command_has_id(commands@, i as int, j as int, id@));
                return Some((&list.path, &list.commands[j]));
            }
            assert(no_id_before(commands@, i as int, j + 1, id@)) by {
                assert forall|i2: int, j2: int|
                    (i2 < i || (i2 == i && j2 < j + 1)) implies !#[trigger] command_has_id(
                    commands@,
                    i2,
                    j2,
                    id@,
                ) by {
                    if i2 == i && j2 == j {
                    } else {
                        assert(i2 < i || (i2 == i && j2 < j));
                    }
                }
            }
        }
        assert(no_id_before(commands@, i + 1, 0, id@)) by {
            assert forall|i2: int, j2: int|
                (i2 < i + 1 || (i2 == i + 1 && j2 < 0)) implies !#[trigger] command_has_id(
                commands@,
                i2,
                j2,
                id@,
            ) by {
                if i2 == i {
                    if 0 <= j2 < m {
                        assert(i2 == i && j2 < m);
                    }
                } else if i2 < i {
                    assert(i2 < i || (i2 == i && j2 < 0));
                }
            }
        }
    }
    assert forall|i: int, j: int| !#[trigger] command_has_id(commands@, i, j, id@) by {
        if command_has_id(commands@, i, j, id@) {
            assert(i < n || (i == n && j < 0));
        }
    }
    None
}

/// The paths of the command packs, in order.
pub fn list_paths(commands: &[JCommandsList]) -> (r: Vec<&str>)
    ensures
        r@.len() == commands@.len(),
        forall|i: int| 0 <= i < r@.len() ==> (#[trigger] r@[i])@ == commands@[i].path@,
{
    let mut r: Vec<&str> = Vec::new();
    for i in 0..commands.len()
        invariant
            r@.len() == i,
            forall|k: int| 0 <= k < i ==> (#[trigger] r@[k])@ == commands@[k].path@,
    {
        r.push(commands[i].path.as_str());
    }
    r
}


/// Digits for decimal and hexadecimal numbers.
pub const DIGITS: [char; 16] = [
    '0', '1', '2', '3', '4', '5', '6', '7', '8', '9', 'a', 'b', 'c', 'd', 'e', 'f',
];

/// The decimal representation of `n`, as `format!("{}", n)` writes it.
pub open spec fn decimal(n: nat) -> Seq<char>
    decreases n,
{
    if n < 10 {
        seq![DIGITS@[n as int]]
    } else {
        decimal(n / 10).push(DIGITS@[(n % 10) as int])
    }
}

/// The decimal digits of `n`.
pub fn decimal_digits(n: usize) -> (r: Vec<char>)
    ensures
        r@ == decimal(n as nat),
    decreases n,
{
    if n < 10 {
        let mut r: Vec<char> = Vec::new();
        r.push(DIGITS[n]);
        r
    } else {
        let mut r = decimal_digits(n / 10);
        r.push(DIGITS[n % 10]);
        r
    }
}

/// `s` with every '-' replaced by '_', as `str::replace('-', "_")` leaves it.
pub open spec fn dashes_to_underscores(s: Seq<char>) -> Seq<char> {
    s.map_values(|c: char| if c == '-' { '_' } else { c })
}

/// The identifier of the `index`-th command of a legacy pack named `name`.
pub open spec fn legacy_id(name: Seq<char>, index: nat) -> Seq<char> {
    dashes_to_underscores(name) + seq!['_'] + decimal(index)
}

/// Distinct digits are distinct characters.
proof fn lemma_digits_distinct(i: int, j: int)
    requires
        0 <= i < 16,
        0 <= j < 16,
        i != j,
    ensures
        DIGITS@[i] != DIGITS@[j],
{
}

/// Different numbers are written differently.
proof fn lemma_decimal_injective(a: nat, b: nat)
    requires
        a != b,
    ensures
        decimal(a) != decimal(b),
        decimal(a).len() >= 1,
    decreases a + b,
{
    if a < 10 && b < 10 {
        lemma_digits_distinct(a as int, b as int);
        assert(decimal(a)[0] != decimal(b)[0]);
    } else if a < 10 {
        lemma_decimal_injective((b / 10) as nat, (b / 10 + 1) as nat);
        assert(decimal(b).len() >= 2);
    } else if b < 10 {
        lemma_decimal_injective((a / 10) as nat, (a / 10 + 1) as nat);
        assert(decimal(a).len() >= 2);
    } else if a % 10 != b % 10 {
        lemma_digits_distinct((a % 10) as int, (b % 10) as int);
        assert(decimal(a).last() != decimal(b).last());
    } else {
        lemma_decimal_injective((a / 10) as nat, (b / 10) as nat);
        assert(decimal(a).drop_last() =~= decimal((a / 10) as nat));
        assert(decimal(b).drop_last() =~= decimal((b / 10) as nat));
    }
}

/// Law: the commands of a legacy pack get pairwise distinct identifiers:
/// two different positions never share an identifier, whatever the pack's name.
pub proof fn lemma_legacy_ids_distinct(name: Seq<char>, i: nat, j: nat)
    requires
        i != j,
    ensures
        legacy_id(name, i) != legacy_id(name, j),
{
    lemma_decimal_injective(i, j);
    let prefix = dashes_to_underscores(name) + seq!['_'];
    assert(legacy_id(name, i) == prefix + decimal(i));
    assert(legacy_id(name, j) == prefix + decimal(j));
    assert((prefix + decimal(i)).skip(prefix.len() as int) =~= decimal(i));
    assert((prefix + decimal(j)).skip(prefix.len() as int) =~= decimal(j));
}

/// The number that the decimal digits `s` write, most significant first.
pub open spec fn digits_value(s: Seq<char>) -> int
    decreases s.len(),
{
    if s.len() == 0 {
        0
    } else {
        10 * digits_value(s.drop_last()) + (s.last() as int - '0' as int)
    }
}

/// The decimal digit `d` is the character `d` places after '0'.
proof fn lemma_digit_char(d: int)
    requires
        0 <= d < 10,
    ensures
        DIGITS@[d] as int == '0' as int + d,
{
    assert(DIGITS@[0] as int == 48);
    assert(DIGITS@[1] as int == 49);
    assert(DIGITS@[2] as int == 50);
    assert(DIGITS@[3] as int == 51);
    assert(DIGITS@[4] as int == 52);
    assert(DIGITS@[5] as int == 53);
    assert(DIGITS@[6] as int == 54);
    assert(DIGITS@[7] as int == 55);
    assert(DIGITS@[8] as int == 56);
    assert(DIGITS@[9] as int == 57);
}

/// Law: `decimal(n)` is how `n` is written in base ten: digits '0' to '9'
/// only, no leading zero, and reading them back gives `n`.
pub proof fn lemma_decimal_writes_number(n: nat)
    ensures
        decimal(n).len() >= 1,
        forall|i: int| 0 <= i < decimal(n).len() ==> '0' <= #[trigger] decimal(n)[i] <= '9',
        decimal(n)[0] != '0' || n == 0,
        digits_value(decimal(n)) == n,
    decreases n,
{
    lemma_digit_char((n % 10) as int);
    if 0 < n < 10 {
        lemma_digits_distinct(n as int, 0);
        assert(DIGITS@[0] == '0');
        assert(decimal(n)[0] == DIGITS@[n as int]);
    }
    if n >= 10 {
        let q = (n / 10) as nat;
        lemma_decimal_writes_number(q);
        let d = decimal(n);
        assert(d.drop_last() =~= decimal(q));
        assert forall|i: int| 0 <= i < d.len() implies '0' <= #[trigger] d[i] <= '9' by {
            if i < d.len() - 1 {
                assert(d[i] == decimal(q)[i]);
            }
        }
        assert(d[0] == decimal(q)[0]);
        assert(q >= 1);
        assert(decimal(q)[0] != '0');
        assert(d.last() == DIGITS@[(n % 10) as int]);
        assert(digits_value(d) == 10 * digits_value(decimal(q)) + (d.last() as int - '0' as int));
        assert(10 * q + n % 10 == n);
    } else {
        let d = decimal(n);
        assert(d.drop_last() =~= Seq::<char>::empty());
        assert(digits_value(d) == 10 * digits_value(d.drop_last()) + (d.last() as int - '0' as int));
    }
}

/// Law: the identifier of the `index`-th command of a legacy pack named
/// `name` is the name with each '-' (and nothing else) turned into '_',
/// then '_', then `index` in decimal.
pub proof fn lemma_legacy_id_chars(name: Seq<char>, index: nat)
    ensures
        legacy_id(name, index).len() == name.len() + 1 + decimal(index).len(),
        forall|i: int|
            0 <= i < name.len() ==> #[trigger] legacy_id(name, index)[i] == if name[i] == '-' {
                '_'
            } else {
                name[i]
            },
        legacy_id(name, index)[name.len() as int] == '_',
        legacy_id(name, index).skip(name.len() + 1int) == decimal(index),
{
    let id = legacy_id(name, index);
    assert(id.skip(name.len() + 1int) =~= decimal(index));
}

/// The action part of a legacy YAML command.
#[derive(Debug)]
pub struct LegacyYamlCommandAction {
    pub action: String,
    pub exe_path: String,
    pub exe_args: Vec<String>,
    pub cli_cmd: String,
    pub cli_args: Vec<String>,
}

/// The voice part of a legacy YAML command.
#[derive(Debug)]
pub struct LegacyYamlVoice {
    pub sounds: Vec<String>,
}

/// A command of a legacy YAML pack.
#[derive(Debug)]
pub struct LegacyYamlCommandItem {
    pub command: LegacyYamlCommandAction,
    pub voice: LegacyYamlVoice,
    pub phrases: Vec<String>,
}

/// A legacy YAML command pack.
#[derive(Debug)]
pub struct LegacyYamlCommandsList {
    pub list: Vec<LegacyYamlCommandItem>,
}

/// The language that legacy packs are written in.
pub open spec fn legacy_lang() -> Seq<char> {
    seq!['r', 'u']
}

/// Timeout, in milliseconds, given to commands of legacy packs.
pub const LEGACY_TIMEOUT_MS: u64 = 10_000;

/// `c` is what the legacy command `item`, the `index`-th of the pack named `name`,
/// becomes.
pub open spec fn is_legacy_command(
    c: JCommand,
    item: LegacyYamlCommandItem,
    name: Seq<char>,
    index: nat,
) -> bool {
    &&& c.id@ == legacy_id(name, index)
    &&& c.cmd_type == item.command.action
    &&& c.description@.len() == 0
    &&& c.exe_path == item.command.exe_path
    &&& c.exe_args == item.command.exe_args
    &&& c.cli_cmd == item.command.cli_cmd
    &&& c.cli_args == item.command.cli_args
    &&& c.script@.len() == 0
    &&& c.sandbox@.len() == 0
    &&& c.timeout == LEGACY_TIMEOUT_MS
    &&& c.sounds@.len() == 1
    &&& c.sounds@[0].lang@ == legacy_lang()
    &&& c.sounds@[0].items == item.voice.sounds
    &&& c.phrases@.len() == 1
    &&& c.phrases@[0].lang@ == legacy_lang()
    &&& c.phrases@[0].items == item.phrases
}

/// The identifier string of the `index`-th command of a legacy pack named `name`.
fn legacy_command_id(name: &str, index: usize) -> (r: String)
    ensures
        r@ == legacy_id(name@, index as nat),
{
    let chars = chars_of(name);
    let mut id: Vec<char> = Vec::new();
    for i in 0..chars.len()
        invariant
            id@ == dashes_to_underscores(chars@.take(i as int)),
    {
        let c = chars[i];
        if c == '-' {
            id.push('_');
        } else {
            id.push(c);
        }
        assert(dashes_to_underscores(chars@.take(i + 1)) =~= dashes_to_underscores(
            chars@.take(i as int),
        ).push(if c == '-' { '_' } else { c }));
    }
    assert(chars@.take(chars@.len() as int) =~= chars@);
    id.push('_');
    let digits = decimal_digits(index);
    let ghost before = id@;
    for k in 0..digits.len()
        invariant
            id@ == before + digits@.take(k as int),
    {
        id.push(digits[k]);
        assert(digits@.take(k + 1) =~= digits@.take(k as int).push(digits@[k as int]));
    }
    assert(digits@.take(digits@.len() as int) =~= digits@);
    assert(id@ =~= legacy_id(name@, index as nat));
    string_from_chars(&id)
}

/// The language-tagged list holding `items` under the legacy language.
fn legacy_entries(items: Vec<String>) -> (r: Vec<LangEntries>)
    ensures
        r@.len() == 1,
        r@[0].lang@ == legacy_lang(),
        r@[0].items == items,
{
    let mut lang = String::new();
    crate::text::push_char(&mut lang, 'r');
    crate::text::push_char(&mut lang, 'u');
    assert(lang@ =~= legacy_lang());
    let mut r: Vec<LangEntries> = Vec::new();
    r.push(LangEntries { lang, items });
    r
}

impl LegacyYamlCommandItem {
    /// Turns the legacy command into a command, the `index`-th of the pack named
    /// `pack_name`.
    pub fn into_command(self, pack_name: &str, index: usize) -> (r: JCommand)
        ensures
            is_legacy_command(r, self, pack_name@, index as nat),
            r.wf(),
            r.id@.len() == pack_name@.len() + 1 + decimal(index as nat).len(),
            forall|i: int|
                0 <= i < pack_name@.len() ==> #[trigger] r.id@[i] == if pack_name@[i] == '-' {
                    '_'
                } else {
                    pack_name@[i]
                },
            r.id@[pack_name@.len() as int] == '_',
            r.id@.skip(pack_name@.len() + 1int) == decimal(index as nat),
    {
        proof {
            lemma_legacy_id_chars(pack_name@, index as nat);
        }
        let id = legacy_command_id(pack_name, index);
        JCommand {
            id,
            cmd_type: self.command.action,
            description: String::new(),
            exe_path: self.command.exe_path,
            exe_args: self.command.exe_args,
            cli_cmd: self.command.cli_cmd,
            cli_args: self.command.cli_args,
            script: String::new(),
            sandbox: String::new(),
            timeout: LEGACY_TIMEOUT_MS,
            sounds: legacy_entries(self.voice.sounds),
            phrases: legacy_entries(self.phrases),
        }
    }
}

/// The name under which the commands of a legacy pack are numbered: the pack
/// directory's name, or "legacy_command" when it has none.
pub open spec fn legacy_pack_name(dir_name: Option<Seq<char>>) -> Seq<char> {
    match dir_name {
        Some(n) => n,
        None => seq!['l', 'e', 'g', 'a', 'c', 'y', '_', 'c', 'o', 'm', 'm', 'a', 'n', 'd'],
    }
}

/// The view of an optional string.
pub open spec fn opt_view(s: Option<&str>) -> Option<Seq<char>> {
    match s {
        Some(x) => Some(x@),
        None => None,
    }
}

/// Builds the pack of a legacy YAML file found in the directory `path`, whose
/// last component is `dir_name` when it has one: its commands are the items
/// in order, numbered from one.
pub fn legacy_command_pack(
    path: String,
    dir_name: Option<&str>,
    file: LegacyYamlCommandsList,
) -> (r: JCommandsList)
    ensures
        r.path == path,
        r.commands@.len() == file.list@.len(),
        forall|k: int|
            0 <= k < r.commands@.len() ==> is_legacy_command(
                #[trigger] r.commands@[k],
                file.list@[k],
                legacy_pack_name(opt_view(dir_name)),
                (k + 1) as nat,
            ),
        forall|k: int| 0 <= k < r.commands@.len() ==> #[trigger] r.commands@[k].wf(),
        forall|i: int, j: int|
            0 <= i < r.commands@.len() && 0 <= j < r.commands@.len() && i != j
                ==> #[trigger] r.commands@[i].id@ != #[trigger] r.commands@[j].id@,
{
    let name: String = match dir_name {
        Some(n) => n.to_owned(),
        None => {
            let s = "legacy_command".to_owned();
            proof {
                reveal_strlit("legacy_command");
            }
            assert(s@ =~= legacy_pack_name(None));
            s
        },
    };
    let ghost items = file.list@;
    let n = file.list.len();
    let mut commands: Vec<JCommand> = Vec::new();
    let mut k: usize = 0;
    for item in it: file.list.into_iter()
        invariant
            it.seq() == items,
            k == it.index(),
            items.len() == n,
            name@ == legacy_pack_name(opt_view(dir_name)),
            commands@.len() == k,
            forall|j: int|
                0 <= j < k ==> is_legacy_command(
                    #[trigger] commands@[j],
                    items[j],
                    legacy_pack_name(opt_view(dir_name)),
                    (j + 1) as nat,
                ),
            forall|j: int| 0 <= j < k ==> #[trigger] commands@[j].wf(),
    {
        assert(k < n);
        let c = item.into_command(name.as_str(), k + 1);
        commands.push(c);
        k = k + 1;
    }
    assert forall|i: int, j: int|
        0 <= i < commands@.len() && 0 <= j < commands@.len() && i != j
            implies #[trigger] commands@[i].id@ != #[trigger] commands@[j].id@ by {
        lemma_legacy_ids_distinct(legacy_pack_name(opt_view(dir_name)), (i + 1) as nat, (j + 1) as nat);
    }
    JCommandsList { path, commands }
}


/// The values held by the present entries of `s`, in order.
pub open spec fn present<T>(s: Seq<Option<T>>) -> Seq<T>
    decreases s.len(),
{
    if s.len() == 0 {
        seq![]
    } else {
        let p = present(s.drop_last());
        match s.last() {
            Some(x) => p.push(x),
            None => p,
        }
    }
}

/// Gathers the packs that could be read, in order; fails with
/// "No commands found" when there is none.
pub fn collect_command_packs(packs: Vec<Option<JCommandsList>>) -> (r: Result<
    Vec<JCommandsList>,
    String,
>)
    ensures
        r matches Ok(v) ==> v@ == present(packs@) && v@.len() > 0,
        r matches Err(e) ==> present(packs@).len() == 0 && e@ == "No commands found"@,
        r is Ok <==> present(packs@).len() > 0,
{
    let ghost all = packs@;
    let mut found: Vec<JCommandsList> = Vec::new();
    for p in it: packs.into_iter()
        invariant
            it.seq() == all,
            found@ == present(all.take(it.index() as int)),
    {
        let ghost i = it.index();
        assert(all.take(i + 1).drop_last() =~= all.take(i as int));
        assert(all.take(i + 1).last() == p);
        match p {
            Some(list) => found.push(list),
            None => {},
        }
    }
    assert(all.take(all.len() as int) =~= all);
    if found.len() == 0 {
        Err("No commands found".to_owned())
    } else {
        Ok(found)
    }
}

/// The file formats a command pack can be written in.
#[derive(Clone, Copy, Debug, PartialEq, Eq)]
pub enum PackFormat {
    /// `command.toml`
    Toml,
    /// `command.yaml`, the legacy format
    LegacyYaml,
}

/// Which file of a pack directory is read: `command.toml` when there is one,
/// else `command.yaml`, else none.
pub fn pack_format(has_toml: bool, has_yaml: bool) -> (r: Option<PackFormat>)
    ensures
        has_toml ==> r == Some(PackFormat::Toml),
        !has_toml && has_yaml ==> r == Some(PackFormat::LegacyYaml),
        !has_toml && !has_yaml ==> r is None,
{
    if has_toml {
        Some(PackFormat::Toml)
    } else if has_yaml {
        Some(PackFormat::LegacyYaml)
    } else {
        None
    }
}

/// What running a command amounts to, by its type.
#[derive(Clone, Copy, Debug, PartialEq, Eq)]
pub enum CommandAction {
    /// "voice": nothing to run; chaining goes on.
    Voice,
    /// "lua": run the command's Lua script.
    Lua,
    /// "ahk": spawn the command's executable with its arguments.
    Ahk,
    /// "cli": run the command's shell line with its arguments.
    Cli,
    /// "terminate": end the assistant.
    Terminate,
    /// "stop_chaining": nothing to run; chaining stops.
    StopChaining,
    /// Any other type: an error.
    Unknown,
}

/// The action for a command type.
pub open spec fn action_of(t: Seq<char>) -> CommandAction {
    if t == "voice"@ {
        CommandAction::Voice
    } else if t == "lua"@ {
        CommandAction::Lua
    } else if t == "ahk"@ {
        CommandAction::Ahk
    } else if t == "cli"@ {
        CommandAction::Cli
    } else if t == "terminate"@ {
        CommandAction::Terminate
    } else if t == "stop_chaining"@ {
        CommandAction::StopChaining
    } else {
        CommandAction::Unknown
    }
}

/// Decides what running a command of type `cmd_type` amounts to.
pub fn command_action(cmd_type: &str) -> (r: CommandAction)
    ensures
        r == action_of(cmd_type@),
{
    if str_eq(cmd_type, "voice") {
        CommandAction::Voice
    } else if str_eq(cmd_type, "lua") {
        CommandAction::Lua
    } else if str_eq(cmd_type, "ahk") {
        CommandAction::Ahk
    } else if str_eq(cmd_type, "cli") {
        CommandAction::Cli
    } else if str_eq(cmd_type, "terminate") {
        CommandAction::Terminate
    } else if str_eq(cmd_type, "stop_chaining") {
        CommandAction::StopChaining
    } else {
        CommandAction::Unknown
    }
}

/// The script a Lua command runs, relative to its pack's directory: the
/// command's own `script`, or "script.lua" where that is empty.
pub open spec fn script_name_of(script: Seq<char>) -> Seq<char> {
    if script.len() == 0 {
        "script.lua"@
    } else {
        script
    }
}

/// Names the script file of a Lua command.
pub fn lua_script_name(cmd: &JCommand) -> (r: String)
    ensures
        r@ == script_name_of(cmd.script@),
{
    if cmd.script.as_str().is_empty() {
        "script.lua".to_owned()
    } else {
        cmd.script.clone()
    }
}

/// The error for a Lua command whose script file is missing.
pub fn missing_script_error(script_path: &str) -> (r: String)
    ensures
        r@ == "Lua script not found: "@ + script_path@,
{
    let mut r = "Lua script not found: ".to_owned();
    r.append(script_path);
    r
}

/// The error for a command of an unknown type.
pub fn unknown_command_error(cmd_type: &str) -> (r: String)
    ensures
        r@ == "Command type unknown: "@ + cmd_type@,
{
    let mut r = "Command type unknown: ".to_owned();
    r.append(cmd_type);
    r
}

} // verus!
