use vstd::prelude::*;

verus! {

/// The characters that `char::is_whitespace` accepts: those with the Unicode
/// `White_Space` property.
pub open spec fn is_ws(c: char) -> bool {
    let u = c as u32;
    ||| 0x09 <= u <= 0x0D
    ||| u == 0x20
    ||| u == 0x85
    ||| u == 0xA0
    ||| u == 0x1680
    ||| 0x2000 <= u <= 0x200A
    ||| u == 0x2028
    ||| u == 0x2029
    ||| u == 0x202F
    ||| u == 0x205F
    ||| u == 0x3000
}

/// Whether `c` is a whitespace character.
pub fn is_whitespace(c: char) -> (r: bool)
    ensures
        r == is_ws(c),
{
    let u = c as u32;
    (0x09 <= u && u <= 0x0D) || u == 0x20 || u == 0x85 || u == 0xA0 || u == 0x1680 || (0x2000
        <= u && u <= 0x200A) || u == 0x2028 || u == 0x2029 || u == 0x202F || u == 0x205F || u
        == 0x3000
}

/// The characters of `s`, in order.
pub fn chars_of(s: &str) -> (r: Vec<char>)
    ensures
        r@ == s@,
{
    let mut r: Vec<char> = Vec::new();
    for c in it: s.chars()
        invariant
            r@ == it.seq().take(it.index() as int),
            it.seq() == s@,
    {
        r.push(c);
    }
    r
}


/// `s` without its leading whitespace, as `str::trim_start` leaves it.
pub open spec fn trim_start(s: Seq<char>) -> Seq<char>
    decreases s.len(),
{
    if s.len() > 0 && is_ws(s[0]) {
        trim_start(s.drop_first())
    } else {
        s
    }
}

/// `s` without its trailing whitespace, as `str::trim_end` leaves it.
pub open spec fn trim_end(s: Seq<char>) -> Seq<char>
    decreases s.len(),
{
    if s.len() > 0 && is_ws(s.last()) {
        trim_end(s.drop_last())
    } else {
        s
    }
}

/// `s` without leading and trailing whitespace, as `str::trim` leaves it.
pub open spec fn trim(s: Seq<char>) -> Seq<char> {
    trim_end(trim_start(s))
}

/// The whitespace-separated words of `s`, in order, as `str::split_whitespace`
/// yields them: the maximal runs of non-whitespace characters.
pub open spec fn split_words(s: Seq<char>) -> Seq<Seq<char>>
    decreases s.len(),
{
    if s.len() == 0 {
        seq![]
    } else {
        let prev = split_words(s.drop_last());
        let c = s.last();
        if is_ws(c) {
            prev
        } else if s.len() >= 2 && !is_ws(s[s.len() - 2]) {
            prev.drop_last().push(prev.last().push(c))
        } else {
            prev.push(seq![c])
        }
    }
}

/// The words of `ws` joined by single spaces.
pub open spec fn join_words(ws: Seq<Seq<char>>) -> Seq<char>
    decreases ws.len(),
{
    if ws.len() == 0 {
        seq![]
    } else if ws.len() == 1 {
        ws[0]
    } else {
        join_words(ws.drop_last()) + seq![' '] + ws.last()
    }
}

/// What `str::to_lowercase` returns for a string holding the characters `s`.
pub uninterp spec fn lowercase_of(s: Seq<char>) -> Seq<char>;

/// The normal form of a spoken or typed phrase: trimmed, lower-cased, and with
/// every run of whitespace between words replaced by a single space.
pub open spec fn normalized(s: Seq<char>) -> Seq<char> {
    join_words(split_words(lowercase_of(trim(s))))
}

/// Calls `str::to_lowercase` on the string made of `chars`. The contract
/// names the result (`lowercase_of`), since the Unicode case tables are not
/// restated here, and states the one fact the documentation makes plain of a
/// given input: the empty string lower-cases to the empty string. Nothing is
/// said of how case mapping treats whitespace, of the length of the result,
/// or of lower-casing twice.
#[verifier::external_body]
pub(crate) fn to_lowercase(chars: &[char]) -> (r: Vec<char>)
    ensures
        r@ == lowercase_of(chars@),
        chars@.len() == 0 ==> r@.len() == 0,
{
    let s: String = chars.iter().collect();
    s.to_lowercase().chars().collect()
}

/// Calls `String::push`: appends `c` to `s`.
#[verifier::external_body]
pub(crate) fn push_char(s: &mut String, c: char)
    ensures
        final(s)@ == old(s)@.push(c),
{
    s.push(c);
}

/// The string made of `chars`.
pub fn string_from_chars(chars: &[char]) -> (r: String)
    ensures
        r@ == chars@,
{
    let mut r = String::new();
    for i in 0..chars.len()
        invariant
            r@ == chars@.take(i as int),
    {
        push_char(&mut r, chars[i]);
        assert(chars@.take(i + 1) =~= chars@.take(i as int).push(chars@[i as int]));
    }
    assert(chars@.take(chars.len() as int) =~= chars@);
    r
}

/// `chars` with leading and trailing whitespace removed.
pub fn trim_chars(chars: &[char]) -> (r: Vec<char>)
    ensures
        r@ == trim(chars@),
{
    let n = chars.len();
    let mut i: usize = 0;
    assert(chars@.skip(0) =~= chars@);
    while i < n && is_whitespace(chars[i])
        invariant
            i <= n,
            n == chars@.len(),
            trim_start(chars@) == trim_start(chars@.skip(i as int)),
        decreases n - i,
    {
        assert(chars@.skip(i as int).drop_first() =~= chars@.skip(i + 1));
        i = i + 1;
    }
    let mut j: usize = n;
    assert(chars@.subrange(i as int, n as int) =~= chars@.skip(i as int));
    while j > i && is_whitespace(chars[j - 1])
        invariant
            i <= j <= n,
            n == chars@.len(),
            trim_start(chars@) == chars@.skip(i as int),
            trim(chars@) == trim_end(chars@.subrange(i as int, j as int)),
        decreases j,
    {
        assert(chars@.subrange(i as int, j as int).drop_last() =~= chars@.subrange(
            i as int,
            j - 1,
        ));
        j = j - 1;
    }
    let mut r: Vec<char> = Vec::new();
    let mut k: usize = i;
    while k < j
        invariant
            i <= k <= j <= n,
            n == chars@.len(),
            r@ == chars@.subrange(i as int, k as int),
        decreases j - k,
    {
        r.push(chars[k]);
        assert(chars@.subrange(i as int, k + 1) =~= chars@.subrange(i as int, k as int).push(
            chars@[k as int],
        ));
        k = k + 1;
    }
    r
}


/// The character sequences held by a list of character vectors.
pub open spec fn words_view(v: Seq<Vec<char>>) -> Seq<Seq<char>> {
    v.map_values(|w: Vec<char>| w@)
}

/// A character sequence that ends in a non-whitespace character has at least one word.
proof fn lemma_split_words_nonempty(s: Seq<char>)
    requires
        s.len() > 0,
        !is_ws(s.last()),
    ensures
        split_words(s).len() > 0,
    decreases s.len(),
{
    if s.len() >= 2 && !is_ws(s[s.len() - 2]) {
        lemma_split_words_nonempty(s.drop_last());
    }
}

/// The whitespace-separated words of `chars`, as `str::split_whitespace` yields them.
pub fn split_whitespace(chars: &[char]) -> (r: Vec<Vec<char>>)
    ensures
        words_view(r@) == split_words(chars@),
{
    let mut r: Vec<Vec<char>> = Vec::new();
    let n = chars.len();
    for i in 0..n
        invariant
            n == chars@.len(),
            words_view(r@) == split_words(chars@.take(i as int)),
    {
        let c = chars[i];
        let ghost s = chars@.take(i + 1);
        let ghost prev = words_view(r@);
        assert(s.drop_last() =~= chars@.take(i as int));
        assert(s.last() == c);
        assert(i >= 1 ==> s[s.len() - 2] == chars@[i - 1]);
        if is_whitespace(c) {
        } else if i >= 1 && !is_whitespace(chars[i - 1]) {
            proof {
                lemma_split_words_nonempty(chars@.take(i as int));
            }
            let mut w = r.pop().unwrap();
            w.push(c);
            r.push(w);
            assert(words_view(r@) =~= prev.drop_last().push(prev.last().push(c)));
        } else {
            let mut w: Vec<char> = Vec::new();
            w.push(c);
            r.push(w);
            assert(words_view(r@) =~= prev.push(seq![c]));
        }
    }
    assert(chars@.take(n as int) =~= chars@);
    r
}

/// The words of `words` joined by single spaces.
pub fn join_with_spaces(words: &[Vec<char>]) -> (r: Vec<char>)
    ensures
        r@ == join_words(words_view(words@)),
{
    let mut r: Vec<char> = Vec::new();
    let n = words.len();
    for i in 0..n
        invariant
            n == words@.len(),
            r@ == join_words(words_view(words@).take(i as int)),
    {
        let ghost ws = words_view(words@).take(i + 1);
        assert(ws.drop_last() =~= words_view(words@).take(i as int));
        if i > 0 {
            r.push(' ');
        }
        let w = &words[i];
        let ghost before = r@;
        for k in 0..w.len()
            invariant
                r@ == before + w@.take(k as int),
        {
            r.push(w[k]);
            assert(w@.take(k + 1) =~= w@.take(k as int).push(w@[k as int]));
        }
        assert(w@.take(w.len() as int) =~= w@);
        assert(r@ =~= join_words(ws));
    }
    assert(words_view(words@).take(n as int) =~= words_view(words@));
    r
}

/// The characters of `s` trimmed and then lower-cased, as
/// `s.trim().to_lowercase()` gives them: how a command's own phrase is
/// prepared before it is compared with what was said.
pub fn trimmed_lowercase(s: &str) -> (r: Vec<char>)
    ensures
        r@ == lowercase_of(trim(s@)),
{
    let chars = chars_of(s);
    let trimmed = trim_chars(&chars);
    to_lowercase(&trimmed)
}

/// Normalizes a phrase: trims it, lower-cases it and collapses every run of
/// whitespace between words into a single space.
pub fn normalize_phrase(phrase: &str) -> (r: String)
    ensures
        r@ == normalized(phrase@),
        trim(phrase@).len() == 0 ==> r@.len() == 0,
{
    let chars = chars_of(phrase);
    let trimmed = trim_chars(&chars);
    let lower = to_lowercase(&trimmed);
    let words = split_whitespace(&lower);
    let joined = join_with_spaces(&words);
    string_from_chars(&joined)
}


/// Whether two character sequences are equal.
pub fn chars_equal(a: &[char], b: &[char]) -> (r: bool)
    ensures
        r == (a@ == b@),
{
    if a.len() != b.len() {
        return false;
    }
    for i in 0..a.len()
        invariant
            a@.len() == b@.len(),
            forall|k: int| 0 <= k < i ==> a@[k] == b@[k],
    {
        if a[i] != b[i] {
            return false;
        }
    }
    assert(a@ =~= b@);
    true
}

/// Whether two strings hold the same characters.
pub fn str_eq(a: &str, b: &str) -> (r: bool)
    ensures
        r == (a@ == b@),
{
    let ac = chars_of(a);
    let bc = chars_of(b);
    chars_equal(&ac, &bc)
}

/// Whether `s` holds only whitespace (so that `str::trim` leaves it empty).
pub fn is_blank(s: &str) -> (r: bool)
    ensures
        r == (trim(s@).len() == 0),
{
    let c = chars_of(s);
    let t = trim_chars(&c);
    t.len() == 0
}


/// A phrase in normal form: its only whitespace is single spaces between
/// non-empty words, none at either end.
pub open spec fn is_canonical(s: Seq<char>) -> bool {
    &&& forall|i: int| 0 <= i < s.len() && is_ws(#[trigger] s[i]) ==> s[i] == ' '
    &&& s.len() > 0 ==> s[0] != ' ' && s.last() != ' '
    &&& forall|i: int| 0 <= i < s.len() - 1 && #[trigger] s[i] == ' ' ==> s[i + 1] != ' '
}

/// Each word is non-empty and holds no whitespace.
pub open spec fn good_words(ws: Seq<Seq<char>>) -> bool {
    forall|k: int|
        0 <= k < ws.len() ==> (#[trigger] ws[k]).len() > 0 && forall|i: int|
            0 <= i < ws[k].len() ==> !is_ws(#[trigger] ws[k][i])
}

proof fn lemma_split_words_good(s: Seq<char>)
    ensures
        good_words(split_words(s)),
    decreases s.len(),
{
    if s.len() > 0 {
        let prev = split_words(s.drop_last());
        lemma_split_words_good(s.drop_last());
        let c = s.last();
        if is_ws(c) {
        } else if s.len() >= 2 && !is_ws(s[s.len() - 2]) {
            assert(s.drop_last().last() == s[s.len() - 2]);
            lemma_split_words_nonempty(s.drop_last());
            let w = prev.last().push(c);
            let r = prev.drop_last().push(w);
            assert forall|k: int| 0 <= k < r.len() implies (#[trigger] r[k]).len() > 0 && forall|i: int|
                0 <= i < r[k].len() ==> !is_ws(#[trigger] r[k][i]) by {
                if k < r.len() - 1 {
                    assert(r[k] == prev[k]);
                } else {
                    assert(r[k] == w);
                    assert forall|i: int| 0 <= i < w.len() implies !is_ws(#[trigger] w[i]) by {
                        if i < w.len() - 1 {
                            assert(w[i] == prev.last()[i]);
                        }
                    }
                }
            }
        } else {
            let r = prev.push(seq![c]);
            assert forall|k: int| 0 <= k < r.len() implies (#[trigger] r[k]).len() > 0 && forall|i: int|
                0 <= i < r[k].len() ==> !is_ws(#[trigger] r[k][i]) by {
                if k < r.len() - 1 {
                    assert(r[k] == prev[k]);
                }
            }
        }
    }
}

proof fn lemma_join_canonical(ws: Seq<Seq<char>>)
    requires
        good_words(ws),
    ensures
        is_canonical(join_words(ws)),
        ws.len() > 0 ==> join_words(ws).len() > 0,
    decreases ws.len(),
{
    if ws.len() == 1 {
        let j = join_words(ws);
        assert(j == ws[0]);
        assert forall|i: int| 0 <= i < j.len() implies !is_ws(#[trigger] j[i]) by {
            assert(j[i] == ws[0][i]);
        }
    } else if ws.len() > 1 {
        let d = ws.drop_last();
        assert forall|k: int| 0 <= k < d.len() implies (#[trigger] d[k]).len() > 0 && forall|i: int|
            0 <= i < d[k].len() ==> !is_ws(#[trigger] d[k][i]) by {
            assert(d[k] == ws[k]);
        }
        lemma_join_canonical(d);
        let a = join_words(d);
        let w = ws.last();
        assert(w.len() > 0 && forall|i: int| 0 <= i < w.len() ==> !is_ws(#[trigger] w[i]));
        let j = a + seq![' '] + w;
        assert(join_words(ws) == j);
        assert forall|i: int| 0 <= i < j.len() && is_ws(#[trigger] j[i]) implies j[i] == ' ' by {
            if i > a.len() {
                assert(j[i] == w[i - a.len() - 1]);
            }
        }
        assert(j.last() == w.last());
        assert(j[0] == a[0]);
        assert forall|i: int| 0 <= i < j.len() - 1 && #[trigger] j[i] == ' ' implies j[i + 1] != ' ' by {
            if i < a.len() - 1 {
                assert(j[i] == a[i] && j[i + 1] == a[i + 1]);
            } else if i == a.len() - 1 {
                assert(j[i] == a.last());
            } else if i == a.len() {
                assert(j[i + 1] == w[0]);
            } else {
                assert(j[i] == w[i - a.len() - 1]);
            }
        }
    }
}

/// Law: a normalized phrase is in normal form: it holds no whitespace but
/// single spaces between words, and none at either end.
pub proof fn lemma_normalized_is_canonical(s: Seq<char>)
    ensures
        is_canonical(normalized(s)),
{
    lemma_split_words_good(lowercase_of(trim(s)));
    lemma_join_canonical(split_words(lowercase_of(trim(s))));
}

/// Whitespace only as single spaces, no leading space; a trailing space is allowed.
spec fn spaced_words(s: Seq<char>) -> bool {
    &&& forall|i: int| 0 <= i < s.len() && is_ws(#[trigger] s[i]) ==> s[i] == ' '
    &&& s.len() > 0 ==> s[0] != ' '
    &&& forall|i: int| 0 <= i < s.len() - 1 && #[trigger] s[i] == ' ' ==> s[i + 1] != ' '
}

/// Appending a character to the last word appends it to the joined words.
proof fn lemma_join_extend_last(ws: Seq<Seq<char>>, c: char)
    requires
        ws.len() > 0,
    ensures
        join_words(ws.drop_last().push(ws.last().push(c))) == join_words(ws).push(c),
{
    let w2 = ws.drop_last().push(ws.last().push(c));
    assert(w2.drop_last() =~= ws.drop_last());
    if ws.len() == 1 {
        assert(join_words(w2) == w2[0]);
    } else {
        assert(join_words(w2) =~= join_words(ws).push(c));
    }
}

/// Splitting words joined by single spaces and joining them again gives the
/// same characters, less a trailing space.
proof fn lemma_join_split_spaced(s: Seq<char>)
    requires
        spaced_words(s),
    ensures
        join_words(split_words(s)) == (if s.len() > 0 && s.last() == ' ' {
            s.drop_last()
        } else {
            s
        }),
    decreases s.len(),
{
    if s.len() > 0 {
        let d = s.drop_last();
        let c = s.last();
        assert forall|i: int| 0 <= i < d.len() && is_ws(#[trigger] d[i]) implies d[i] == ' ' by {
            assert(d[i] == s[i]);
        }
        assert forall|i: int| 0 <= i < d.len() - 1 && #[trigger] d[i] == ' ' implies d[i + 1] != ' ' by {
            assert(d[i] == s[i] && d[i + 1] == s[i + 1]);
        }
        if d.len() > 0 {
            assert(d[0] == s[0]);
        }
        lemma_join_split_spaced(d);
        let prev = split_words(d);
        if is_ws(c) {
            assert(s[s.len() - 1] == ' ');
            if d.len() > 0 {
                assert(d.last() == s[s.len() - 2]);
                assert(d.last() != ' ');
            }
        } else if s.len() >= 2 && !is_ws(s[s.len() - 2]) {
            assert(d.last() == s[s.len() - 2]);
            lemma_split_words_nonempty(d);
            lemma_join_extend_last(prev, c);
            assert(s =~= d.push(c));
        } else if s.len() == 1 {
            assert(split_words(s) == seq![seq![c]]);
            assert(join_words(seq![seq![c]]) == seq![c]);
            assert(s =~= seq![c]);
        } else {
            assert(d.last() == s[s.len() - 2]);
            assert(d.last() == ' ');
            assert(d.len() >= 2);
            let dd = d.drop_last();
            assert(dd.last() == s[s.len() - 3]);
            assert(s[s.len() - 3] != ' ');
            assert(!is_ws(dd.last()));
            lemma_split_words_nonempty(dd);
            assert(split_words(d) == split_words(dd));
            let ws = prev.push(seq![c]);
            assert(ws.drop_last() =~= prev);
            assert(join_words(ws) == join_words(prev) + seq![' '] + seq![c]);
            assert(s =~= dd + seq![' '] + seq![c]);
        }
    }
}

/// Law, as far as lower-casing allows: normalizing a phrase again changes
/// nothing whenever lower-casing its normal form changes nothing. (What
/// `str::to_lowercase` gives is only named here, so the law leaves that
/// condition to the caller.)
pub proof fn lemma_normalize_again(s: Seq<char>)
    requires
        lowercase_of(normalized(s)) == normalized(s),
    ensures
        normalized(normalized(s)) == normalized(s),
{
    let c = normalized(s);
    lemma_normalized_is_canonical(s);
    if c.len() > 0 {
        assert(!is_ws(c[0]));
        assert(!is_ws(c.last()));
    }
    assert(trim_start(c) == c);
    assert(trim_end(c) == c);
    lemma_join_split_spaced(c);
}

} // verus!
