use vstd::prelude::*;
use vstd::utf8::encode_utf8;
use sha2::Digest;

use crate::commands::{entries_for, strings_view, JCommand, JCommandsList, DIGITS};
use crate::text::chars_of;

verus! {

/// `a` comes no later than `b` in the order of `str`: character by character,
/// a proper prefix first.
pub open spec fn lex_le(a: Seq<char>, b: Seq<char>) -> bool
    decreases a.len(),
{
    if a.len() == 0 {
        true
    } else if b.len() == 0 {
        false
    } else if (a[0] as u32) < (b[0] as u32) {
        true
    } else if (a[0] as u32) > (b[0] as u32) {
        false
    } else {
        lex_le(a.drop_first(), b.drop_first())
    }
}

proof fn lemma_char_u32_injective(c: char, d: char)
    requires
        c as u32 == d as u32,
    ensures
        c == d,
{
    vstd::utf8::char_u32_cast(c, c as u32);
    vstd::utf8::char_u32_cast(d, d as u32);
}

/// Any two sequences are ordered one way or the other.
pub proof fn lemma_lex_total(a: Seq<char>, b: Seq<char>)
    ensures
        lex_le(a, b) || lex_le(b, a),
    decreases a.len(),
{
    if a.len() > 0 && b.len() > 0 && a[0] as u32 == b[0] as u32 {
        lemma_lex_total(a.drop_first(), b.drop_first());
    }
}

/// The order is transitive.
pub proof fn lemma_lex_transitive(a: Seq<char>, b: Seq<char>, c: Seq<char>)
    requires
        lex_le(a, b),
        lex_le(b, c),
    ensures
        lex_le(a, c),
    decreases a.len(),
{
    if a.len() > 0 && b.len() > 0 && c.len() > 0 && a[0] as u32 == b[0] as u32 && b[0] as u32
        == c[0] as u32 {
        lemma_lex_transitive(a.drop_first(), b.drop_first(), c.drop_first());
    }
}

/// The order is antisymmetric.
pub proof fn lemma_lex_antisymmetric(a: Seq<char>, b: Seq<char>)
    requires
        lex_le(a, b),
        lex_le(b, a),
    ensures
        a == b,
    decreases a.len(),
{
    if a.len() > 0 && b.len() > 0 {
        lemma_char_u32_injective(a[0], b[0]);
        lemma_lex_antisymmetric(a.drop_first(), b.drop_first());
        assert(a =~= seq![a[0]] + a.drop_first());
        assert(b =~= seq![b[0]] + b.drop_first());
    }
}

/// Whether `a` comes no later than `b` in the order of `str`.
pub fn lex_le_chars(a: &[char], b: &[char]) -> (r: bool)
    ensures
        r == lex_le(a@, b@),
{
    let mut i: usize = 0;
    assert(a@.skip(0) =~= a@ && b@.skip(0) =~= b@);
    while i < a.len() && i < b.len()
        invariant
            i <= a@.len(),
            i <= b@.len(),
            lex_le(a@, b@) == lex_le(a@.skip(i as int), b@.skip(i as int)),
        decreases a@.len() - i,
    {
        let x = a[i] as u32;
        let y = b[i] as u32;
        if x < y {
            return true;
        }
        if x > y {
            return false;
        }
        assert(a@.skip(i as int).drop_first() =~= a@.skip(i + 1));
        assert(b@.skip(i as int).drop_first() =~= b@.skip(i + 1));
        i = i + 1;
    }
    i == a.len()
}

/// `ord` lists the positions of `keys` in the order of a stable sort by key:
/// every position once, keys ascending, equal keys in their original order.
pub open spec fn is_stable_order(keys: Seq<Seq<char>>, ord: Seq<int>) -> bool {
    &&& ord.len() == keys.len()
    &&& forall|i: int| 0 <= i < ord.len() ==> 0 <= #[trigger] ord[i] < keys.len()
    &&& forall|i: int, j: int| 0 <= i < j < ord.len() ==> #[trigger] ord[i] != #[trigger] ord[j]
    &&& forall|i: int, j: int|
        0 <= i < j < ord.len() ==> lex_le(keys[#[trigger] ord[i]], keys[#[trigger] ord[j]])
    &&& forall|i: int, j: int|
        0 <= i < j < ord.len() && keys[#[trigger] ord[i]] == keys[#[trigger] ord[j]] ==> ord[i]
            < ord[j]
}

/// The positions held by a vector of indices.
pub open spec fn positions(v: Seq<usize>) -> Seq<int> {
    v.map_values(|x: usize| x as int)
}

/// The character sequences held by a list of character vectors.
pub open spec fn keys_view(v: Seq<Vec<char>>) -> Seq<Seq<char>> {
    v.map_values(|w: Vec<char>| w@)
}

/// Sorts the positions of `keys` by key, keeping equal keys in their order,
/// as a stable sort does.
pub fn stable_order(keys: &Vec<Vec<char>>) -> (ord: Vec<usize>)
    ensures
        is_stable_order(keys_view(keys@), positions(ord@)),
{
    let ghost kv = keys_view(keys@);
    let mut ord: Vec<usize> = Vec::new();
    let n = keys.len();
    for k in 0..n
        invariant
            n == keys@.len(),
            kv == keys_view(keys@),
            is_stable_order(kv.take(k as int), positions(ord@)),
    {
        let x = &keys[k];
        assert(kv[k as int] == x@);
        assert forall|q: int| 0 <= q < ord@.len() implies (#[trigger] ord@[q]) < k by {
            assert(positions(ord@)[q] == ord@[q] as int);
        }
        let mut p: usize = 0;
        while p < ord.len() && lex_le_chars(&keys[ord[p]], x)
            invariant
                n == keys@.len(),
                kv == keys_view(keys@),
                k < n,
                kv[k as int] == x@,
                is_stable_order(kv.take(k as int), positions(ord@)),
                p <= ord@.len(),
                forall|q: int| 0 <= q < ord@.len() ==> (#[trigger] ord@[q]) < k,
                forall|q: int| 0 <= q < p ==> lex_le(kv[#[trigger] ord@[q] as int], x@),
            decreases ord@.len() - p,
        {
            assert(kv[ord@[p as int] as int] == keys@[ord@[p as int] as int]@);
            p = p + 1;
        }
        let ghost old_ord = positions(ord@);
        proof {
            if p < ord@.len() {
                assert(kv[ord@[p as int] as int] == keys@[ord@[p as int] as int]@);
            }
            assert forall|q: int| 0 <= q < p implies lex_le(kv[#[trigger] old_ord[q]], kv[k as int]) by {
                assert(old_ord[q] == ord@[q] as int);
            }
            lemma_insert_keeps_order(kv, k as int, old_ord, p as int);
        }
        ord.insert(p, k);
        assert(positions(ord@) =~= old_ord.insert(p as int, k as int));
    }
    assert(kv.take(n as int) =~= kv);
    ord
}

/// Inserting position `k` where the keys first exceed its key extends a stable
/// order of the first `k` keys to one of the first `k + 1`.
proof fn lemma_insert_keeps_order(kv: Seq<Seq<char>>, k: int, ord: Seq<int>, p: int)
    requires
        0 <= k < kv.len(),
        is_stable_order(kv.take(k), ord),
        0 <= p <= ord.len(),
        forall|q: int| 0 <= q < p ==> lex_le(kv[#[trigger] ord[q]], kv[k]),
        p < ord.len() ==> !lex_le(kv[ord[p]], kv[k]),
    ensures
        is_stable_order(kv.take(k + 1), ord.insert(p, k)),
{
    let t = kv.take(k);
    let t1 = kv.take(k + 1);
    let o2 = ord.insert(p, k);
    assert forall|i: int| 0 <= i < ord.len() implies t[#[trigger] ord[i]] == kv[ord[i]] by {}
    assert forall|i: int| 0 <= i < o2.len() implies 0 <= #[trigger] o2[i] < t1.len() by {
        if i < p {
            assert(o2[i] == ord[i]);
        } else if i > p {
            assert(o2[i] == ord[i - 1]);
        }
    }
    assert forall|i: int, j: int| 0 <= i < j < o2.len() implies #[trigger] o2[i] != #[trigger] o2[j] by {
        if i < p && j < p {
            assert(o2[i] == ord[i] && o2[j] == ord[j]);
        } else if i < p && j > p {
            assert(o2[i] == ord[i] && o2[j] == ord[j - 1]);
        } else if i > p && j > p {
            assert(o2[i] == ord[i - 1] && o2[j] == ord[j - 1]);
        } else if i == p {
            assert(o2[j] == ord[j - 1]);
        } else {
            assert(o2[i] == ord[i]);
        }
    }
    assert forall|i: int, j: int|
        0 <= i < j < o2.len() implies lex_le(t1[#[trigger] o2[i]], t1[#[trigger] o2[j]]) by {
        if i < p && j < p {
            assert(o2[i] == ord[i] && o2[j] == ord[j]);
        } else if i < p && j > p {
            assert(o2[i] == ord[i] && o2[j] == ord[j - 1]);
            assert(lex_le(t[ord[i]], t[ord[j - 1]]));
        } else if i > p && j > p {
            assert(o2[i] == ord[i - 1] && o2[j] == ord[j - 1]);
            assert(lex_le(t[ord[i - 1]], t[ord[j - 1]]));
        } else if i == p {
            assert(o2[j] == ord[j - 1]);
            lemma_lex_total(kv[ord[p]], kv[k]);
            if j - 1 > p {
                assert(lex_le(t[ord[p]], t[ord[j - 1]]));
                lemma_lex_transitive(kv[k], kv[ord[p]], kv[ord[j - 1]]);
            }
        } else {
            assert(o2[i] == ord[i]);
        }
    }
    assert forall|i: int, j: int|
        0 <= i < j < o2.len() && t1[#[trigger] o2[i]] == t1[#[trigger] o2[j]] implies o2[i]
        < o2[j] by {
        if i < p && j < p {
            assert(o2[i] == ord[i] && o2[j] == ord[j]);
        } else if i < p && j > p {
            assert(o2[i] == ord[i] && o2[j] == ord[j - 1]);
        } else if i > p && j > p {
            assert(o2[i] == ord[i - 1] && o2[j] == ord[j - 1]);
        } else if i == p {
            assert(o2[j] == ord[j - 1]);
            if j - 1 > p {
                assert(lex_le(t[ord[p]], t[ord[j - 1]]));
            }
        } else {
            assert(o2[i] == ord[i]);
        }
    }
}


/// A command as the fingerprint sees it: its identifier and its phrases in
/// the fingerprint's language.
pub type HashEntry = (Seq<char>, Seq<Seq<char>>);

/// The fingerprint entries of `cmds`, in order.
pub open spec fn command_entries(cmds: Seq<JCommand>, lang: Seq<char>) -> Seq<HashEntry> {
    cmds.map_values(|c: JCommand| (c.id@, entries_for(c.phrases@, lang)))
}

/// The fingerprint entries of all commands of all packs, pack by pack.
pub open spec fn all_entries(lists: Seq<JCommandsList>, lang: Seq<char>) -> Seq<HashEntry>
    decreases lists.len(),
{
    if lists.len() == 0 {
        seq![]
    } else {
        all_entries(lists.drop_last(), lang) + command_entries(lists.last().commands@, lang)
    }
}

/// The identifiers of a list of entries.
pub open spec fn entry_keys(es: Seq<HashEntry>) -> Seq<Seq<char>> {
    es.map_values(|e: HashEntry| e.0)
}

/// The UTF-8 bytes of a list of strings, one after the other.
pub open spec fn concat_utf8(ps: Seq<Seq<char>>) -> Seq<u8>
    decreases ps.len(),
{
    if ps.len() == 0 {
        seq![]
    } else {
        concat_utf8(ps.drop_last()) + encode_utf8(ps.last())
    }
}

/// The bytes that an entry adds to the fingerprint: its identifier, then its
/// phrases.
pub open spec fn entry_bytes(e: HashEntry) -> Seq<u8> {
    encode_utf8(e.0) + concat_utf8(e.1)
}

/// The bytes of a list of entries, one after the other.
pub open spec fn entries_bytes(es: Seq<HashEntry>) -> Seq<u8>
    decreases es.len(),
{
    if es.len() == 0 {
        seq![]
    } else {
        entries_bytes(es.drop_last()) + entry_bytes(es.last())
    }
}

/// The bytes that are hashed: the language, a '|' and the sorted entries.
pub open spec fn hash_input(lang: Seq<char>, sorted: Seq<HashEntry>) -> Seq<u8> {
    encode_utf8(lang) + seq![0x7Cu8] + entries_bytes(sorted)
}

/// The entries of `es` in the order `ord`.
pub open spec fn reorder(es: Seq<HashEntry>, ord: Seq<int>) -> Seq<HashEntry> {
    ord.map_values(|i: int| es[i])
}

/// What SHA-256 gives for `data`.
pub uninterp spec fn sha256_digest(data: Seq<u8>) -> Seq<u8>;

/// Calls `sha2::Sha256::digest`: the SHA-256 hash of `data`, 32 bytes long.
/// The hash itself is named, not restated.
#[verifier::external_body]
fn sha256(data: &[u8]) -> (r: Vec<u8>)
    ensures
        r@ == sha256_digest(data@),
        r@.len() == 32,
{
    sha2::Sha256::digest(data).to_vec()
}

/// Lowercase hexadecimal, two digits per byte, as `format!("{:x}", ..)`
/// writes a digest.
pub open spec fn hex_lower(bytes: Seq<u8>) -> Seq<char>
    decreases bytes.len(),
{
    if bytes.len() == 0 {
        seq![]
    } else {
        hex_lower(bytes.drop_last()) + seq![
            DIGITS@[(bytes.last() / 16) as int],
            DIGITS@[(bytes.last() % 16) as int],
        ]
    }
}

/// A lowercase hexadecimal digit.
pub open spec fn is_lower_hex(c: char) -> bool {
    ('0' <= c <= '9') || ('a' <= c <= 'f')
}

/// The digits are lowercase hexadecimal digits.
proof fn lemma_digit_is_lower_hex(d: int)
    requires
        0 <= d < 16,
    ensures
        is_lower_hex(DIGITS@[d]),
{
}

/// Hex writes two lowercase hexadecimal digits per byte.
pub proof fn lemma_hex_lower_shape(bytes: Seq<u8>)
    ensures
        hex_lower(bytes).len() == 2 * bytes.len(),
        forall|i: int| 0 <= i < hex_lower(bytes).len() ==> is_lower_hex(#[trigger] hex_lower(bytes)[i]),
    decreases bytes.len(),
{
    if bytes.len() > 0 {
        let prev = hex_lower(bytes.drop_last());
        lemma_hex_lower_shape(bytes.drop_last());
        let b = bytes.last();
        lemma_digit_is_lower_hex((b / 16) as int);
        lemma_digit_is_lower_hex((b % 16) as int);
        let h = hex_lower(bytes);
        assert forall|i: int| 0 <= i < h.len() implies is_lower_hex(#[trigger] h[i]) by {
            if i < prev.len() {
                assert(h[i] == prev[i]);
            }
        }
    }
}

/// Writes `bytes` in lowercase hexadecimal.
pub fn to_hex_lower(bytes: &[u8]) -> (r: String)
    ensures
        r@ == hex_lower(bytes@),
        r@.len() == 2 * bytes@.len(),
        forall|i: int| 0 <= i < r@.len() ==> is_lower_hex(#[trigger] r@[i]),
{
    let mut r = String::new();
    for i in 0..bytes.len()
        invariant
            r@ == hex_lower(bytes@.take(i as int)),
    {
        let b = bytes[i];
        assert(bytes@.take(i + 1).drop_last() =~= bytes@.take(i as int));
        crate::text::push_char(&mut r, DIGITS[(b / 16) as usize]);
        crate::text::push_char(&mut r, DIGITS[(b % 16) as usize]);
        assert(r@ =~= hex_lower(bytes@.take(i + 1)));
    }
    assert(bytes@.take(bytes@.len() as int) =~= bytes@);
    proof {
        lemma_hex_lower_shape(bytes@);
    }
    r
}

/// Appends the UTF-8 bytes of `s` to `out`.
fn push_utf8(out: &mut Vec<u8>, s: &str)
    ensures
        final(out)@ == old(out)@ + encode_utf8(s@),
{
    let b = s.as_bytes();
    let ghost before = out@;
    for i in 0..b.len()
        invariant
            b@ == encode_utf8(s@),
            out@ == before + b@.take(i as int),
    {
        out.push(b[i]);
        assert(b@.take(i + 1) =~= b@.take(i as int).push(b@[i as int]));
    }
    assert(b@.take(b@.len() as int) =~= b@);
}

/// The fingerprint entries of the commands, as executable values.
struct EntryList {
    ids: Vec<Vec<char>>,
    id_strings: Vec<String>,
    phrases: Vec<Vec<String>>,
}

impl EntryList {
    spec fn view_entries(&self) -> Seq<HashEntry> {
        Seq::new(self.ids@.len(), |i: int| (self.ids@[i]@, strings_view(self.phrases@[i]@)))
    }

    spec fn wf(&self) -> bool {
        &&& self.id_strings@.len() == self.ids@.len()
        &&& self.phrases@.len() == self.ids@.len()
        &&& forall|i: int| 0 <= i < self.ids@.len() ==> (#[trigger] self.id_strings@[i])@ == self.ids@[i]@
    }
}

/// Gathers the identifier and phrases in `lang` of every command, pack by pack.
fn gather_entries(commands: &[JCommandsList], lang: &str) -> (r: EntryList)
    ensures
        r.wf(),
        r.view_entries() == all_entries(commands@, lang@),
{
    let mut r = EntryList { ids: Vec::new(), id_strings: Vec::new(), phrases: Vec::new() };
    assert(r.view_entries() =~= all_entries(commands@.take(0), lang@));
    for i in 0..commands.len()
        invariant
            r.wf(),
            r.view_entries() == all_entries(commands@.take(i as int), lang@),
    {
        let list = &commands[i];
        let ghost base = r.view_entries();
        assert(commands@.take(i + 1).drop_last() =~= commands@.take(i as int));
        for j in 0..list.commands.len()
            invariant
                r.wf(),
                i < commands@.len(),
                *list == commands@[i as int],
                r.view_entries() == base + command_entries(list.commands@.take(j as int), lang@),
        {
            let c = &list.commands[j];
            let ghost old_e = r.view_entries();
            let idc = chars_of(c.id.as_str());
            let ids = c.id.clone();
            let ph = c.get_phrases(lang);
            r.ids.push(idc);
            r.id_strings.push(ids);
            r.phrases.push(ph);
            let ghost e: HashEntry = (c.id@, entries_for(c.phrases@, lang@));
            assert(r.view_entries() =~= old_e.push(e));
            assert(list.commands@.take(j + 1) =~= list.commands@.take(j as int).push(*c));
            assert(command_entries(list.commands@.take(j + 1), lang@) =~= command_entries(
                list.commands@.take(j as int),
                lang@,
            ).push(e));
            assert(r.view_entries() =~= base + command_entries(list.commands@.take(j + 1), lang@));
        }
        assert(list.commands@.take(list.commands@.len() as int) =~= list.commands@);
        assert(r.view_entries() =~= all_entries(commands@.take(i + 1), lang@));
    }
    assert(commands@.take(commands@.len() as int) =~= commands@);
    r
}

/// The fingerprint of a set of command packs for `lang`: the lowercase hex
/// SHA-256 of the language, a '|', then, in the order of a stable sort by
/// identifier, each command's identifier followed by its phrases in `lang`.
/// It changes whenever an identifier or a phrase in that language does.
pub fn commands_hash(commands: &[JCommandsList], lang: &str) -> (r: String)
    ensures
        exists|ord: Seq<int>|
            is_stable_order(entry_keys(all_entries(commands@, lang@)), ord) && r@ == hex_lower(
                sha256_digest(
                    hash_input(lang@, reorder(all_entries(commands@, lang@), ord)),
                ),
            ),
        r@.len() == 64,
        forall|i: int| 0 <= i < r@.len() ==> is_lower_hex(#[trigger] r@[i]),
{
    let entries = gather_entries(commands, lang);
    let ghost es = entries.view_entries();
    assert(keys_view(entries.ids@) =~= entry_keys(es));
    let ord = stable_order(&entries.ids);
    let ghost o = positions(ord@);
    let mut data: Vec<u8> = Vec::new();
    push_utf8(&mut data, lang);
    data.push(0x7Cu8);
    let ghost head = data@;
    assert(reorder(es, o.take(0)) =~= Seq::<HashEntry>::empty());
    for k in 0..ord.len()
        invariant
            entries.wf(),
            es == entries.view_entries(),
            o == positions(ord@),
            is_stable_order(entry_keys(es), o),
            data@ == head + entries_bytes(reorder(es, o.take(k as int))),
    {
        let idx = ord[k];
        assert(o[k as int] == idx as int);
        assert(0 <= o[k as int] < es.len());
        let ghost before = data@;
        push_utf8(&mut data, entries.id_strings[idx].as_str());
        let ph = &entries.phrases[idx];
        let ghost mid = data@;
        for m in 0..ph.len()
            invariant
                data@ == mid + concat_utf8(strings_view(ph@).take(m as int)),
        {
            push_utf8(&mut data, ph[m].as_str());
            assert(strings_view(ph@).take(m + 1).drop_last() =~= strings_view(ph@).take(m as int));
        }
        assert(strings_view(ph@).take(ph@.len() as int) =~= strings_view(ph@));
        assert(reorder(es, o.take(k + 1)).drop_last() =~= reorder(es, o.take(k as int)));
        assert(reorder(es, o.take(k + 1)).last() == es[idx as int]);
        assert(data@ =~= head + entries_bytes(reorder(es, o.take(k + 1))));
    }
    assert(o.take(o.len() as int) =~= o);
    assert(data@ =~= hash_input(lang@, reorder(es, o)));
    let digest = sha256(&data);
    to_hex_lower(&digest)
}


/// No two entries share an identifier.
pub open spec fn distinct_keys(es: Seq<HashEntry>) -> bool {
    forall|i: int, j: int| 0 <= i < es.len() && 0 <= j < es.len() && i != j ==> es[i].0 != es[j].0
}

/// A stable order lists every position.
proof fn lemma_order_covers(keys: Seq<Seq<char>>, ord: Seq<int>)
    requires
        is_stable_order(keys, ord),
    ensures
        forall|k: int| 0 <= k < keys.len() ==> #[trigger] ord.contains(k),
{
    let n = keys.len() as int;
    assert(ord.no_duplicates()) by {
        assert forall|i: int, j: int| 0 <= i < ord.len() && 0 <= j < ord.len() && i != j implies ord[i]
            != ord[j] by {
            if i < j {
                assert(ord[i] != ord[j]);
            } else {
                assert(ord[j] != ord[i]);
            }
        }
    }
    ord.unique_seq_to_set();
    vstd::set_lib::lemma_int_range(0, n);
    vstd::seq_lib::seq_to_set_is_finite(ord);
    let r = vstd::set_lib::set_int_range(0, n);
    assert(ord.to_set().subset_of(r)) by {
        assert forall|x: int| ord.to_set().contains(x) implies r.contains(x) by {
            let i = choose|i: int| 0 <= i < ord.len() && ord[i] == x;
            assert(0 <= ord[i] < n);
        }
    }
    vstd::set_lib::lemma_subset_equality(ord.to_set(), r);
    assert forall|k: int| 0 <= k < keys.len() implies #[trigger] ord.contains(k) by {
        assert(r.contains(k));
        assert(ord.to_set().contains(k));
    }
}

/// Entries listed in a stable order hold the same entries, with strictly
/// increasing identifiers when identifiers are distinct.
proof fn lemma_sorted_entries(es: Seq<HashEntry>, ord: Seq<int>)
    requires
        distinct_keys(es),
        is_stable_order(entry_keys(es), ord),
    ensures
        reorder(es, ord).len() == es.len(),
        forall|x: HashEntry| #[trigger] es.contains(x) <==> reorder(es, ord).contains(x),
        forall|i: int, j: int|
            #![trigger reorder(es, ord)[i], reorder(es, ord)[j]]
            0 <= i < j < es.len() ==> lex_le(reorder(es, ord)[i].0, reorder(es, ord)[j].0)
                && reorder(es, ord)[i].0 != reorder(es, ord)[j].0,
{
    let a = reorder(es, ord);
    let keys = entry_keys(es);
    lemma_order_covers(keys, ord);
    assert forall|x: HashEntry| #[trigger] es.contains(x) implies a.contains(x) by {
        let k = choose|k: int| 0 <= k < es.len() && es[k] == x;
        assert(ord.contains(k));
        let i = choose|i: int| 0 <= i < ord.len() && ord[i] == k;
        assert(a[i] == x);
    }
    assert forall|x: HashEntry| #[trigger] a.contains(x) implies es.contains(x) by {
        let i = choose|i: int| 0 <= i < a.len() && a[i] == x;
        assert(0 <= ord[i] < es.len());
        assert(es[ord[i]] == x);
    }
    assert forall|i: int, j: int| 0 <= i < j < es.len() implies lex_le(a[i].0, a[j].0) && a[i].0
        != a[j].0 by {
        assert(keys[ord[i]] == es[ord[i]].0);
        assert(keys[ord[j]] == es[ord[j]].0);
        assert(lex_le(keys[ord[i]], keys[ord[j]]));
        assert(ord[i] != ord[j]);
    }
}

/// Two sequences with strictly increasing identifiers that hold the same
/// entries are equal.
proof fn lemma_sorted_unique(a: Seq<HashEntry>, b: Seq<HashEntry>)
    requires
        a.len() == b.len(),
        forall|x: HashEntry| #[trigger] a.contains(x) <==> b.contains(x),
        forall|i: int, j: int|
            #![trigger a[i], a[j]]
            0 <= i < j < a.len() ==> lex_le(a[i].0, a[j].0) && a[i].0 != a[j].0,
        forall|i: int, j: int|
            #![trigger b[i], b[j]]
            0 <= i < j < b.len() ==> lex_le(b[i].0, b[j].0) && b[i].0 != b[j].0,
    ensures
        a == b,
{
    lemma_sorted_prefix(a, b, a.len() as int);
    assert(a =~= b);
}

proof fn lemma_sorted_prefix(a: Seq<HashEntry>, b: Seq<HashEntry>, m: int)
    requires
        0 <= m <= a.len(),
        a.len() == b.len(),
        forall|x: HashEntry| #[trigger] a.contains(x) <==> b.contains(x),
        forall|i: int, j: int|
            #![trigger a[i], a[j]]
            0 <= i < j < a.len() ==> lex_le(a[i].0, a[j].0) && a[i].0 != a[j].0,
        forall|i: int, j: int|
            #![trigger b[i], b[j]]
            0 <= i < j < b.len() ==> lex_le(b[i].0, b[j].0) && b[i].0 != b[j].0,
    ensures
        forall|i: int| 0 <= i < m ==> a[i] == b[i],
    decreases m,
{
    if m > 0 {
        lemma_sorted_prefix(a, b, m - 1);
        let i = m - 1;
        assert(a.contains(a[i]));
        assert(b.contains(a[i]));
        let j = choose|j: int| 0 <= j < b.len() && b[j] == a[i];
        assert(b.contains(b[i]));
        assert(a.contains(b[i]));
        let k = choose|k: int| 0 <= k < a.len() && a[k] == b[i];
        if j < i {
            assert(a[j] == b[j]);
            assert(a[j].0 != a[i].0);
        }
        if k < i {
            assert(a[k] == b[k]);
            assert(b[k].0 != b[i].0);
        }
        assert(j >= i && k >= i);
        if j > i && k > i {
            assert(lex_le(b[i].0, b[j].0));
            assert(lex_le(a[i].0, a[k].0));
            lemma_lex_antisymmetric(a[i].0, b[i].0);
            assert(b[i].0 != b[j].0);
        }
    }
}

/// Law: when no two commands share an identifier, the fingerprint does not
/// depend on the order in which packs and commands were read: two sets of
/// packs holding the same identifiers with the same phrases in `lang` hash
/// the same bytes.
pub proof fn lemma_hash_ignores_order(
    c1: Seq<JCommandsList>,
    c2: Seq<JCommandsList>,
    lang: Seq<char>,
    o1: Seq<int>,
    o2: Seq<int>,
)
    requires
        distinct_keys(all_entries(c1, lang)),
        distinct_keys(all_entries(c2, lang)),
        all_entries(c1, lang).to_set() == all_entries(c2, lang).to_set(),
        is_stable_order(entry_keys(all_entries(c1, lang)), o1),
        is_stable_order(entry_keys(all_entries(c2, lang)), o2),
    ensures
        hash_input(lang, reorder(all_entries(c1, lang), o1)) == hash_input(
            lang,
            reorder(all_entries(c2, lang), o2),
        ),
{
    let e1 = all_entries(c1, lang);
    let e2 = all_entries(c2, lang);
    lemma_sorted_entries(e1, o1);
    lemma_sorted_entries(e2, o2);
    assert(e1.no_duplicates() && e2.no_duplicates());
    e1.unique_seq_to_set();
    e2.unique_seq_to_set();
    assert forall|x: HashEntry| #[trigger] e1.contains(x) <==> e2.contains(x) by {
        assert(e1.to_set().contains(x) == e1.contains(x));
        assert(e2.to_set().contains(x) == e2.contains(x));
    }
    let a = reorder(e1, o1);
    let b = reorder(e2, o2);
    assert forall|x: HashEntry| #[trigger] a.contains(x) <==> b.contains(x) by {
        assert(a.contains(x) == e1.contains(x));
        assert(b.contains(x) == e2.contains(x));
        assert(e1.contains(x) == e2.contains(x));
    }
    lemma_sorted_unique(a, b);
}

} // verus!
