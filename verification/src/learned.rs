use vstd::prelude::*;

use crate::commands::{get_command_by_id, lookup_result, JCommand, JCommandsList};
use crate::similarity::{similarity, similarity_at_least, similarity_less, similarity_spec, Similarity};
use crate::text::{
    chars_equal, chars_of, is_blank, lemma_normalize_again, lowercase_of, normalize_phrase,
    normalized, str_eq, trim,
};

verus! {

/// A phrase that the user taught the assistant to understand as a command.
#[derive(Debug)]
pub struct LearnedCommandAlias {
    pub phrase: String,
    pub command_id: String,
    pub lang: String,
    pub created_at_unix: u64,
}

/// The learned aliases, as they are stored.
#[derive(Debug)]
pub struct LearnedCommandsFile {
    pub aliases: Vec<LearnedCommandAlias>,
}

/// An alias as plain values: phrase, command identifier, language, creation time.
pub type AliasView = (Seq<char>, Seq<char>, Seq<char>, u64);

impl View for LearnedCommandAlias {
    type V = AliasView;

    open spec fn view(&self) -> AliasView {
        (self.phrase@, self.command_id@, self.lang@, self.created_at_unix)
    }
}

/// The plain values of a list of aliases.
pub open spec fn aliases_view(s: Seq<LearnedCommandAlias>) -> Seq<AliasView> {
    s.map_values(|a: LearnedCommandAlias| a@)
}

/// Alias `a` is in language `lang` and its phrase normalizes to `p`.
pub open spec fn alias_matches(a: AliasView, p: Seq<char>, lang: Seq<char>) -> bool {
    a.2 == lang && normalized(a.0) == p
}

/// The position of the first alias in `s` that `alias_matches` `p` in `lang`.
pub open spec fn find_alias(s: Seq<AliasView>, p: Seq<char>, lang: Seq<char>) -> Option<int>
    decreases s.len(),
{
    if s.len() == 0 {
        None
    } else {
        match find_alias(s.drop_last(), p, lang) {
            Some(k) => Some(k),
            None => if alias_matches(s.last(), p, lang) {
                Some(s.len() - 1)
            } else {
                None
            },
        }
    }
}

/// The aliases after teaching that the normalized phrase `p` in `lang` means
/// command `id`, at time `now`: the first alias for that phrase is pointed at
/// `id`, or a new alias is added at the end.
pub open spec fn after_learning(
    s: Seq<AliasView>,
    p: Seq<char>,
    id: Seq<char>,
    lang: Seq<char>,
    now: u64,
) -> Seq<AliasView> {
    match find_alias(s, p, lang) {
        Some(k) => s.update(k, (s[k].0, id, s[k].2, now)),
        None => s.push((p, id, lang, now)),
    }
}

/// The error for an empty phrase.
pub open spec fn empty_phrase_error() -> Seq<char> {
    "Cannot learn an empty phrase"@
}

/// The error for an empty command identifier.
pub open spec fn empty_command_id_error() -> Seq<char> {
    "Cannot learn an alias for an empty command id"@
}

/// Calls `SystemTime::now` and returns the seconds since the Unix epoch, or 0
/// when the clock is before it. Nothing is promised of the value.
#[verifier::external_body]
fn current_unix_timestamp() -> u64 {
    std::time::SystemTime::now().duration_since(std::time::UNIX_EPOCH).map(|d| d.as_secs()).unwrap_or_default()
}

/// `t` is a time the clock may give: a value that `current_unix_timestamp`
/// can return.
pub closed spec fn clock_reading(t: u64) -> bool {
    call_ensures(current_unix_timestamp, (), t)
}

/// A copy of a string.
fn copy_string(s: &String) -> (r: String)
    ensures
        r@ == s@,
{
    s.clone()
}

/// Teaches that `phrase` in `lang` means the command `command_id`, at time
/// `now`. Fails, changing nothing, when the phrase normalizes to nothing or
/// the identifier is blank.
pub fn learn_alias_at(
    learned: &mut LearnedCommandsFile,
    phrase: &str,
    command_id: &str,
    lang: &str,
    now: u64,
) -> (r: Result<(), String>)
    ensures
        trim(phrase@).len() == 0 ==> (r matches Err(e) && e@ == empty_phrase_error()),
        normalized(phrase@).len() == 0 ==> (r matches Err(e) && e@ == empty_phrase_error()),
        normalized(phrase@).len() > 0 && trim(command_id@).len() == 0 ==> (r matches Err(
            e,
        ) && e@ == empty_command_id_error()),
        r is Err ==> aliases_view(final(learned).aliases@) == aliases_view(old(learned).aliases@),
        r is Ok <==> normalized(phrase@).len() > 0 && trim(command_id@).len() > 0,
        r is Ok ==> aliases_view(final(learned).aliases@) == after_learning(
            aliases_view(old(learned).aliases@),
            normalized(phrase@),
            command_id@,
            lang@,
            now,
        ),
{
    let p = normalize_phrase(phrase);
    if p.as_str().is_empty() {
        return Err("Cannot learn an empty phrase".to_owned());
    }
    if is_blank(command_id) {
        return Err("Cannot learn an alias for an empty command id".to_owned());
    }
    let ghost s = aliases_view(learned.aliases@);
    let n = learned.aliases.len();
    for k in 0..n
        invariant
            n == learned.aliases@.len(),
            s == aliases_view(learned.aliases@),
            s == aliases_view(old(learned).aliases@),
            p@ == normalized(phrase@),
            p@.len() > 0,
            trim(phrase@).len() > 0,
            trim(command_id@).len() > 0,
            find_alias(s.take(k as int), p@, lang@) is None,
    {
        assert(s.take(k + 1).drop_last() =~= s.take(k as int));
        assert(s.take(k + 1).last() == s[k as int]);
        let is_match = str_eq(learned.aliases[k].lang.as_str(), lang) && {
            let np = normalize_phrase(learned.aliases[k].phrase.as_str());
            str_eq(np.as_str(), p.as_str())
        };
        if is_match {
            assert(find_alias(s.take(k + 1), p@, lang@) == Some(k as int));
            proof {
                lemma_find_alias_prefix(s, p@, lang@, k as int + 1);
            }
            let new_phrase = copy_string(&learned.aliases[k].phrase);
            let new_lang = copy_string(&learned.aliases[k].lang);
            let alias = LearnedCommandAlias {
                phrase: new_phrase,
                command_id: command_id.to_owned(),
                lang: new_lang,
                created_at_unix: now,
            };
            learned.aliases.set(k, alias);
            assert(aliases_view(learned.aliases@) =~= after_learning(s, p@, command_id@, lang@, now));
            return Ok(());
        }
    }
    assert(s.take(n as int) =~= s);
    learned.aliases.push(
        LearnedCommandAlias {
            phrase: p,
            command_id: command_id.to_owned(),
            lang: lang.to_owned(),
            created_at_unix: now,
        },
    );
    assert(aliases_view(learned.aliases@) =~= after_learning(s, normalized(phrase@), command_id@, lang@, now));
    Ok(())
}

/// A match found in a prefix is the match of the whole sequence.
proof fn lemma_find_alias_prefix(s: Seq<AliasView>, p: Seq<char>, lang: Seq<char>, m: int)
    requires
        0 <= m <= s.len(),
        find_alias(s.take(m), p, lang) is Some,
    ensures
        find_alias(s, p, lang) == find_alias(s.take(m), p, lang),
    decreases s.len() - m,
{
    if m < s.len() {
        assert(s.take(m + 1).drop_last() =~= s.take(m));
        lemma_find_alias_prefix(s, p, lang, m + 1);
    } else {
        assert(s.take(m) =~= s);
    }
}

/// Teaches that `phrase` in `lang` means the command `command_id`, stamped
/// with the current time. Fails, changing nothing, when the phrase normalizes
/// to nothing or the identifier is blank.
pub fn learn_alias(
    learned: &mut LearnedCommandsFile,
    phrase: &str,
    command_id: &str,
    lang: &str,
) -> (r: Result<(), String>)
    ensures
        trim(phrase@).len() == 0 ==> (r matches Err(e) && e@ == empty_phrase_error()),
        normalized(phrase@).len() == 0 ==> (r matches Err(e) && e@ == empty_phrase_error()),
        normalized(phrase@).len() > 0 && trim(command_id@).len() == 0 ==> (r matches Err(
            e,
        ) && e@ == empty_command_id_error()),
        r is Err ==> aliases_view(final(learned).aliases@) == aliases_view(old(learned).aliases@),
        r is Ok <==> normalized(phrase@).len() > 0 && trim(command_id@).len() > 0,
        r is Ok ==> exists|now: u64|
            clock_reading(now) && aliases_view(final(learned).aliases@) == after_learning(
                aliases_view(old(learned).aliases@),
                normalized(phrase@),
                command_id@,
                lang@,
                now,
            ),
{
    let p = normalize_phrase(phrase);
    if p.as_str().is_empty() {
        return Err("Cannot learn an empty phrase".to_owned());
    }
    if is_blank(command_id) {
        return Err("Cannot learn an alias for an empty command id".to_owned());
    }
    let clock = current_unix_timestamp;
    let now = clock();
    assert(clock_reading(now));
    learn_alias_at(learned, phrase, command_id, lang, now)
}


/// The lowest similarity, in percent, at which a learned alias is taken.
pub const ALIAS_MATCH_PERCENT: u128 = 88;

/// The score of a phrase that equals the query: one hundred percent.
pub open spec fn exact_score() -> Similarity {
    Similarity { matched: 0, total: 0 }
}

/// The score of an alias whose normalized phrase is `an` against the
/// normalized query `p`: full when they are equal, else their similarity.
pub open spec fn alias_score(p: Seq<char>, an: Seq<char>) -> Similarity {
    if an == p {
        exact_score()
    } else {
        similarity_spec(p, an)
    }
}

/// Alias `a` takes part in a lookup in `lang`: it has that language and a
/// phrase that does not normalize to nothing.
pub open spec fn alias_eligible(a: AliasView, lang: Seq<char>) -> bool {
    a.2 == lang && normalized(a.0).len() > 0
}

/// The alias chosen for the normalized query `p` in `lang`, with its score:
/// among the eligible aliases scoring at least `ALIAS_MATCH_PERCENT`, the
/// first one with the highest score.
pub open spec fn best_alias(s: Seq<AliasView>, p: Seq<char>, lang: Seq<char>) -> Option<
    (int, Similarity),
>
    decreases s.len(),
{
    if s.len() == 0 {
        None
    } else {
        let prev = best_alias(s.drop_last(), p, lang);
        let a = s.last();
        if !alias_eligible(a, lang) {
            prev
        } else {
            let sc = alias_score(p, normalized(a.0));
            let better = match prev {
                None => true,
                Some(b) => b.1.less_than(sc),
            };
            if sc.at_least(ALIAS_MATCH_PERCENT as int) && better {
                Some((s.len() - 1, sc))
            } else {
                prev
            }
        }
    }
}

/// The command identifier that the normalized query `p` in `lang` resolves to
/// through the learned aliases `s`, if any.
pub open spec fn learned_target(s: Seq<AliasView>, p: Seq<char>, lang: Seq<char>) -> Option<
    Seq<char>,
> {
    match best_alias(s, p, lang) {
        Some(b) => Some(s[b.0].1),
        None => None,
    }
}

/// The view of a possible best alias.
pub open spec fn best_view(b: Option<(usize, Similarity)>) -> Option<(int, Similarity)> {
    match b {
        Some(x) => Some((x.0 as int, x.1)),
        None => None,
    }
}

/// Resolves the normalized phrase `phrase` in `lang` through the learned
/// aliases to a command of `commands`.
pub fn fetch_learned_command<'a>(
    phrase: &str,
    lang: &str,
    aliases: &[LearnedCommandAlias],
    commands: &'a [JCommandsList],
) -> (r: Option<(&'a String, &'a JCommand)>)
    ensures
        learned_target(aliases_view(aliases@), phrase@, lang@) is None ==> r is None,
        learned_target(aliases_view(aliases@), phrase@, lang@) matches Some(id) ==> lookup_result(
            commands@,
            id,
            r,
        ),
        phrase@.len() > 0 ==> (exact_alias_target(aliases_view(aliases@), phrase@, lang@) matches Some(
            id,
        ) ==> lookup_result(commands@, id, r)),
{
    let ghost s = aliases_view(aliases@);
    let pc = chars_of(phrase);
    let mut best: Option<(usize, Similarity)> = None;
    let n = aliases.len();
    for k in 0..n
        invariant
            n == aliases@.len(),
            s == aliases_view(aliases@),
            pc@ == phrase@,
            best_view(best) == best_alias(s.take(k as int), phrase@, lang@),
            best matches Some(b) ==> b.1.wf() && b.0 < k,
            phrase@.len() > 0 ==> (find_alias(s.take(k as int), phrase@, lang@) matches Some(k0) ==> best
                == Some((k0 as usize, exact_score()))),
            phrase@.len() > 0 ==> (find_alias(s.take(k as int), phrase@, lang@) is None ==> (
            best matches Some(b) ==> !b.1.is_full())),
    {
        assert(s.take(k + 1).drop_last() =~= s.take(k as int));
        assert(s.take(k + 1).last() == s[k as int]);
        let a = &aliases[k];
        if str_eq(a.lang.as_str(), lang) {
            let an = normalize_phrase(a.phrase.as_str());
            let ac = chars_of(an.as_str());
            if ac.len() > 0 {
                let sc = if chars_equal(&ac, &pc) {
                    Similarity { matched: 0, total: 0 }
                } else {
                    similarity(&pc, &ac)
                };
                proof {
                    assert(sc.wf());
                    assert(!exact_score().less_than(sc));
                    assert(sc.is_full() <==> ac@ == pc@);
                    assert(alias_matches(s[k as int], phrase@, lang@) <==> ac@ == pc@);
                }
                let better = match best {
                    None => true,
                    Some(b) => similarity_less(b.1, sc),
                };
                if similarity_at_least(sc, ALIAS_MATCH_PERCENT) && better {
                    best = Some((k, sc));
                }
            }
        }
    }
    assert(s.take(n as int) =~= s);
    proof {
        lemma_find_alias_first(s, phrase@, lang@);
    }
    match best {
        None => None,
        Some(b) => get_command_by_id(commands, aliases[b.0].command_id.as_str()),
    }
}

/// Resolves `phrase` in `lang`, once normalized, through the learned aliases
/// to a command of `commands`. A phrase that normalizes to nothing resolves to
/// nothing.
pub fn fetch_learned_alias_command<'a>(
    phrase: &str,
    lang: &str,
    aliases: &[LearnedCommandAlias],
    commands: &'a [JCommandsList],
) -> (r: Option<(&'a String, &'a JCommand)>)
    ensures
        trim(phrase@).len() == 0 ==> r is None,
        normalized(phrase@).len() == 0 ==> r is None,
        normalized(phrase@).len() > 0 && learned_target(
            aliases_view(aliases@),
            normalized(phrase@),
            lang@,
        ) is None ==> r is None,
        normalized(phrase@).len() > 0 ==> (learned_target(
            aliases_view(aliases@),
            normalized(phrase@),
            lang@,
        ) matches Some(id) ==> lookup_result(commands@, id, r)),
        normalized(phrase@).len() > 0 ==> (exact_alias_target(
            aliases_view(aliases@),
            normalized(phrase@),
            lang@,
        ) matches Some(id) ==> lookup_result(commands@, id, r)),
{
    let p = normalize_phrase(phrase);
    if p.as_str().is_empty() {
        return None;
    }
    fetch_learned_command(p.as_str(), lang, aliases, commands)
}


proof fn lemma_find_alias_first(s: Seq<AliasView>, p: Seq<char>, lang: Seq<char>)
    ensures
        find_alias(s, p, lang) matches Some(k) ==> 0 <= k < s.len() && alias_matches(s[k], p, lang)
            && forall|j: int| 0 <= j < k ==> !#[trigger] alias_matches(s[j], p, lang),
        find_alias(s, p, lang) is None ==> forall|j: int|
            0 <= j < s.len() ==> !#[trigger] alias_matches(s[j], p, lang),
    decreases s.len(),
{
    if s.len() > 0 {
        let d = s.drop_last();
        lemma_find_alias_first(d, p, lang);
        match find_alias(d, p, lang) {
            Some(k) => {
                assert(d[k] == s[k]);
                assert forall|j: int| 0 <= j < k implies !#[trigger] alias_matches(s[j], p, lang) by {
                    assert(d[j] == s[j]);
                    assert(!alias_matches(d[j], p, lang));
                }
            },
            None => {
                assert forall|j: int| 0 <= j < s.len() - 1 implies !#[trigger] alias_matches(
                    s[j],
                    p,
                    lang,
                ) by {
                    assert(d[j] == s[j]);
                    assert(!alias_matches(d[j], p, lang));
                }
            },
        }
    }
}

/// The command identifier of the first alias whose phrase normalizes to `p`
/// in `lang`, if any.
pub open spec fn exact_alias_target(s: Seq<AliasView>, p: Seq<char>, lang: Seq<char>) -> Option<
    Seq<char>,
> {
    match find_alias(s, p, lang) {
        Some(k) => Some(s[k].1),
        None => None,
    }
}

/// Law: once `learn_alias` has taught that the phrase `t` in `lang` means the
/// command `id`, the first alias for that phrase points at `id`; by the
/// contract of `fetch_learned_alias_command`, looking `t` up again resolves to
/// the command `id`. When the phrase is new, the alias stores it normalized,
/// so the law assumes that lower-casing the normal form of `t` changes
/// nothing: what `str::to_lowercase` gives is only named here.
pub proof fn lemma_learned_alias_resolves(
    s: Seq<AliasView>,
    t: Seq<char>,
    id: Seq<char>,
    lang: Seq<char>,
    now: u64,
)
    requires
        lowercase_of(normalized(t)) == normalized(t),
    ensures
        exact_alias_target(after_learning(s, normalized(t), id, lang, now), normalized(t), lang)
            == Some(id),
{
    lemma_normalize_again(t);
    let p = normalized(t);
    let once = after_learning(s, p, id, lang, now);
    lemma_find_alias_first(s, p, lang);
    let k = match find_alias(s, p, lang) {
        Some(k) => k,
        None => s.len() as int,
    };
    assert(alias_matches(once[k], p, lang));
    assert forall|j: int| 0 <= j < k implies !#[trigger] alias_matches(once[j], p, lang) by {
        assert(once[j] == s[j]);
    }
    lemma_find_alias_unique(once, p, lang, k);
}

/// Law: teaching the same phrase again, in the same language, points its
/// alias at the new command instead of adding a second alias. It assumes, as
/// the law above does, that lower-casing the normal form of `t` changes
/// nothing.
pub proof fn lemma_relearning_replaces(
    s: Seq<AliasView>,
    t: Seq<char>,
    id1: Seq<char>,
    id2: Seq<char>,
    lang: Seq<char>,
    now1: u64,
    now2: u64,
)
    requires
        lowercase_of(normalized(t)) == normalized(t),
    ensures
        ({
            let p = normalized(t);
            let once = after_learning(s, p, id1, lang, now1);
            let twice = after_learning(once, p, id2, lang, now2);
            &&& twice.len() == once.len()
            &&& find_alias(twice, p, lang) == find_alias(once, p, lang)
            &&& find_alias(once, p, lang) matches Some(k) && twice[k].1 == id2 && twice[k].3 == now2
        }),
{
    lemma_normalize_again(t);
    let p = normalized(t);
    let once = after_learning(s, p, id1, lang, now1);
    lemma_find_alias_first(s, p, lang);
    lemma_find_alias_first(once, p, lang);
    match find_alias(s, p, lang) {
        Some(k) => {
            assert(alias_matches(once[k], p, lang));
            assert forall|j: int| 0 <= j < k implies !#[trigger] alias_matches(once[j], p, lang) by {
                assert(once[j] == s[j]);
            }
            lemma_find_alias_unique(once, p, lang, k);
            lemma_relearn_step(once, p, id2, lang, now2, k);
        },
        None => {
            let k = s.len() as int;
            assert(alias_matches(once[k], p, lang));
            assert forall|j: int| 0 <= j < k implies !#[trigger] alias_matches(once[j], p, lang) by {
                assert(once[j] == s[j]);
            }
            lemma_find_alias_unique(once, p, lang, k);
            lemma_relearn_step(once, p, id2, lang, now2, k);
        },
    }
}

/// Learning a phrase whose alias is at `k` keeps it at `k`.
proof fn lemma_relearn_step(
    once: Seq<AliasView>,
    p: Seq<char>,
    id2: Seq<char>,
    lang: Seq<char>,
    now2: u64,
    k: int,
)
    requires
        find_alias(once, p, lang) == Some(k),
        0 <= k < once.len(),
        alias_matches(once[k], p, lang),
        forall|j: int| 0 <= j < k ==> !#[trigger] alias_matches(once[j], p, lang),
    ensures
        ({
            let twice = after_learning(once, p, id2, lang, now2);
            &&& twice.len() == once.len()
            &&& find_alias(twice, p, lang) == Some(k)
            &&& twice[k].1 == id2 && twice[k].3 == now2
        }),
{
    let twice = after_learning(once, p, id2, lang, now2);
    assert(alias_matches(twice[k], p, lang));
    assert forall|j: int| 0 <= j < k implies !#[trigger] alias_matches(twice[j], p, lang) by {
        assert(twice[j] == once[j]);
    }
    lemma_find_alias_unique(twice, p, lang, k);
}

/// The first matching alias is the one `find_alias` finds.
proof fn lemma_find_alias_unique(s: Seq<AliasView>, p: Seq<char>, lang: Seq<char>, k: int)
    requires
        0 <= k < s.len(),
        alias_matches(s[k], p, lang),
        forall|j: int| 0 <= j < k ==> !#[trigger] alias_matches(s[j], p, lang),
    ensures
        find_alias(s, p, lang) == Some(k),
{
    lemma_find_alias_first(s, p, lang);
    match find_alias(s, p, lang) {
        Some(k2) => {
            if k2 < k {
                assert(!alias_matches(s[k2], p, lang));
            } else if k2 > k {
                assert(!alias_matches(s[k], p, lang));
            }
        },
        None => {
            assert(!alias_matches(s[k], p, lang));
        },
    }
}

/// The aliases in language `lang`.
pub open spec fn in_language(lang: Seq<char>) -> spec_fn(AliasView) -> bool {
    |a: AliasView| a.2 == lang
}

/// `b` and `c` choose the same alias, with the same score, of `s` and of its
/// aliases in `lang`, `f`.
pub open spec fn same_choice(
    s: Seq<AliasView>,
    b: Option<(int, Similarity)>,
    f: Seq<AliasView>,
    c: Option<(int, Similarity)>,
) -> bool {
    match (b, c) {
        (None, None) => true,
        (Some(x), Some(y)) => 0 <= x.0 < s.len() && 0 <= y.0 < f.len() && s[x.0] == f[y.0] && x.1
            == y.1,
        _ => false,
    }
}

/// The choice among the aliases of `s` is the choice among its aliases in `lang`.
proof fn lemma_best_alias_in_language(s: Seq<AliasView>, p: Seq<char>, lang: Seq<char>)
    ensures
        same_choice(
            s,
            best_alias(s, p, lang),
            s.filter(in_language(lang)),
            best_alias(s.filter(in_language(lang)), p, lang),
        ),
    decreases s.len(),
{
    if s.len() > 0 {
        let d = s.drop_last();
        let f = s.filter(in_language(lang));
        let fd = d.filter(in_language(lang));
        reveal(Seq::filter);
        lemma_best_alias_in_language(d, p, lang);
        if s.last().2 == lang {
            assert(f == fd.push(s.last()));
            assert(f.drop_last() =~= fd);
            assert(f.last() == s.last());
            match best_alias(d, p, lang) {
                Some(x) => {
                    assert(s[x.0] == d[x.0]);
                    let y = best_alias(fd, p, lang)->0;
                    assert(f[y.0] == fd[y.0]);
                },
                None => {},
            }
        } else {
            assert(f == fd);
            match best_alias(d, p, lang) {
                Some(x) => {
                    assert(s[x.0] == d[x.0]);
                },
                None => {},
            }
        }
    }
}

/// The first alias for `p` in `s` is the first among its aliases in `lang`.
proof fn lemma_find_alias_in_language(s: Seq<AliasView>, p: Seq<char>, lang: Seq<char>)
    ensures
        exact_alias_target(s, p, lang) == exact_alias_target(s.filter(in_language(lang)), p, lang),
        find_alias(s, p, lang) matches Some(k) ==> 0 <= k < s.len(),
    decreases s.len(),
{
    if s.len() > 0 {
        let d = s.drop_last();
        let f = s.filter(in_language(lang));
        let fd = d.filter(in_language(lang));
        reveal(Seq::filter);
        lemma_find_alias_in_language(d, p, lang);
        lemma_find_alias_in_language(fd, p, lang);
        if s.last().2 == lang {
            assert(f == fd.push(s.last()));
            assert(f.drop_last() =~= fd);
            match find_alias(d, p, lang) {
                Some(k) => {
                    assert(s[k] == d[k]);
                    let j = find_alias(fd, p, lang)->0;
                    assert(f[j] == fd[j]);
                },
                None => {},
            }
        } else {
            assert(f == fd);
            match find_alias(d, p, lang) {
                Some(k) => {
                    assert(s[k] == d[k]);
                },
                None => {},
            }
        }
    }
}

/// Law: aliases learned in other languages never change what a phrase in
/// `lang` resolves to. Two stores whose aliases in `lang` are the same, in
/// the same order, choose the same command, by score and by exact phrase.
pub proof fn lemma_other_languages_ignored(
    s1: Seq<AliasView>,
    s2: Seq<AliasView>,
    p: Seq<char>,
    lang: Seq<char>,
)
    requires
        s1.filter(in_language(lang)) == s2.filter(in_language(lang)),
    ensures
        learned_target(s1, p, lang) == learned_target(s2, p, lang),
        exact_alias_target(s1, p, lang) == exact_alias_target(s2, p, lang),
{
    lemma_best_alias_in_language(s1, p, lang);
    lemma_best_alias_in_language(s2, p, lang);
    lemma_find_alias_in_language(s1, p, lang);
    lemma_find_alias_in_language(s2, p, lang);
}

/// No two aliases of `s` share a language and a normalized phrase.
pub open spec fn aliases_unique(s: Seq<AliasView>) -> bool {
    forall|i: int, j: int|
        0 <= i < s.len() && 0 <= j < s.len() && i != j ==> !(#[trigger] s[i].2 == #[trigger] s[j].2
            && normalized(s[i].0) == normalized(s[j].0))
}

/// Law: learning keeps at most one alias per language and normalized phrase.
/// A phrase that already has an alias only has that alias repointed; a new
/// phrase is stored normalized, so, as for the laws above, the law assumes
/// that lower-casing the normal form of `t` changes nothing.
pub proof fn lemma_learning_keeps_aliases_unique(
    s: Seq<AliasView>,
    t: Seq<char>,
    id: Seq<char>,
    lang: Seq<char>,
    now: u64,
)
    requires
        aliases_unique(s),
        lowercase_of(normalized(t)) == normalized(t),
    ensures
        aliases_unique(after_learning(s, normalized(t), id, lang, now)),
{
    lemma_normalize_again(t);
    let p = normalized(t);
    let once = after_learning(s, p, id, lang, now);
    lemma_find_alias_first(s, p, lang);
    match find_alias(s, p, lang) {
        Some(k) => {
            assert forall|i: int, j: int|
                0 <= i < once.len() && 0 <= j < once.len() && i != j implies !(#[trigger] once[i].2
                == #[trigger] once[j].2 && normalized(once[i].0) == normalized(once[j].0)) by {
                assert(once[i].0 == s[i].0 && once[i].2 == s[i].2);
                assert(once[j].0 == s[j].0 && once[j].2 == s[j].2);
                assert(s[i].2 == s[i].2);
                assert(s[j].2 == s[j].2);
            }
        },
        None => {
            assert forall|i: int, j: int|
                0 <= i < once.len() && 0 <= j < once.len() && i != j implies !(#[trigger] once[i].2
                == #[trigger] once[j].2 && normalized(once[i].0) == normalized(once[j].0)) by {
                if i < s.len() && j < s.len() {
                    assert(once[i] == s[i]);
                    assert(once[j] == s[j]);
                    assert(s[i].2 == s[i].2);
                    assert(s[j].2 == s[j].2);
                } else if i < s.len() {
                    assert(once[i] == s[i]);
                    assert(!alias_matches(s[i], p, lang));
                } else {
                    assert(once[j] == s[j]);
                    assert(!alias_matches(s[j], p, lang));
                }
            }
        },
    }
}

/// Law: an alias is chosen for the normalized query `p` only when it is in
/// `lang`, its phrase normalizes to something, and it scores at least 88
/// percent, its score being full when its normalized phrase is `p` and
/// otherwise the similarity of `p` and that phrase. When none is chosen, no
/// alias in `lang` with a phrase scores 88 percent.
pub proof fn lemma_best_alias_scores(s: Seq<AliasView>, p: Seq<char>, lang: Seq<char>)
    ensures
        best_alias(s, p, lang) matches Some(b) ==> {
            let n = normalized(s[b.0].0);
            &&& 0 <= b.0 < s.len()
            &&& s[b.0].2 == lang
            &&& n.len() > 0
            &&& b.1 == if n == p {
                Similarity { matched: 0, total: 0 }
            } else {
                similarity_spec(p, n)
            }
            &&& 100 * b.1.num() >= 88 * b.1.den()
        },
        best_alias(s, p, lang) is None ==> forall|j: int|
            0 <= j < s.len() && (#[trigger] s[j]).2 == lang && normalized(s[j].0).len() > 0 ==> {
                let n = normalized(s[j].0);
                let sc = if n == p {
                    Similarity { matched: 0, total: 0 }
                } else {
                    similarity_spec(p, n)
                };
                100 * sc.num() < 88 * sc.den()
            },
    decreases s.len(),
{
    if s.len() > 0 {
        let d = s.drop_last();
        lemma_best_alias_scores(d, p, lang);
        if let Some(b) = best_alias(d, p, lang) {
            assert(s[b.0] == d[b.0]);
        }
        if best_alias(s, p, lang) is None {
            assert forall|j: int|
                0 <= j < s.len() && (#[trigger] s[j]).2 == lang && normalized(s[j].0).len() > 0 implies {
                    let n = normalized(s[j].0);
                    let sc = if n == p {
                        Similarity { matched: 0, total: 0 }
                    } else {
                        similarity_spec(p, n)
                    };
                    100 * sc.num() < 88 * sc.den()
                } by {
                if j < d.len() {
                    assert(s[j] == d[j]);
                }
            }
        }
    }
}

} // verus!
