//! Searching inside command lines and stripping quotes.
use vstd::prelude::*;
use vstd::utf8::is_ascii_chars;
use crate::text::{byte_len, byte_len_of, chars_of, substring, lemma_byte_len_ascii, skip_string, take_chars, take_string};

verus! {

/// `sub` occurs in `s` starting at character position `i`.
pub open spec fn occurs_at(s: Seq<char>, sub: Seq<char>, i: int) -> bool {
    &&& 0 <= i
    &&& i + sub.len() <= s.len()
    &&& s.subrange(i, i + sub.len()) == sub
}

/// The first position at or after `i`, and before the end of `s`, where `sub` occurs.
pub open spec fn find_from(s: Seq<char>, sub: Seq<char>, i: int) -> Option<int>
    decreases s.len() - i,
{
    if i < 0 || i >= s.len() {
        None
    } else if occurs_at(s, sub, i) {
        Some(i)
    } else {
        find_from(s, sub, i + 1)
    }
}

/// The character position of the first occurrence of `sub` in `s`. Only
/// positions of characters of `s` count, so nothing is found in an empty `s`.
pub open spec fn substr_index(s: Seq<char>, sub: Seq<char>) -> Option<int> {
    find_from(s, sub, 0)
}

/// The inputs on which the search by position runs off the characters of `s`
/// while its byte count says there are more: `sub` is not found, `s` holds a
/// character wider than one byte, and some tail of `s` is a proper prefix of `sub`.
pub open spec fn substr_search_panics(s: Seq<char>, sub: Seq<char>) -> bool {
    &&& substr_index(s, sub) is None
    &&& byte_len(s) > s.len()
    &&& exists|i: int|
        0 <= i < s.len() && s.len() - i < sub.len() && #[trigger] s.subrange(i, s.len() as int)
            == sub.subrange(0, s.len() - i)
}

/// `sub` occurs in `s` at position `i` as a word of its own: what precedes it is
/// the start of `s` or a space, and the character found `byte_len(sub)`
/// positions after `i` is missing or a space.
pub open spec fn word_bounded(s: Seq<char>, sub: Seq<char>, i: int) -> bool {
    &&& (i == 0 || s[i - 1] == ' ')
    &&& (i + byte_len(sub) >= s.len() || s[i + byte_len(sub)] == ' ')
}

/// The first occurrence of `sub` in `s`, if it stands there as a word; later
/// occurrences are not looked at.
pub open spec fn word_index(s: Seq<char>, sub: Seq<char>) -> Option<int> {
    match substr_index(s, sub) {
        None => None,
        Some(i) => if word_bounded(s, sub, i) {
            Some(i)
        } else {
            None
        },
    }
}

/// `s` without a surrounding pair of quotes. A text of fewer than two bytes
/// gives the empty text; one that starts with `'` or `"` loses its first
/// character and keeps the next `byte_len(s) - 2` characters; any other text is
/// kept as it is.
pub open spec fn unquoted(s: Seq<char>) -> Seq<char> {
    if byte_len(s) < 2 {
        Seq::empty()
    } else if s[0] == '\'' || s[0] == '"' {
        take_chars(s.drop_first(), byte_len(s) - 2)
    } else {
        s
    }
}

/// What `find_from` returns: the least position at or after `i` where `sub` occurs.
pub proof fn lemma_find_from(s: Seq<char>, sub: Seq<char>, i: int)
    requires
        0 <= i,
    ensures
        match find_from(s, sub, i) {
            Some(k) => i <= k < s.len() && occurs_at(s, sub, k) && forall|j: int|
                i <= j < k ==> !occurs_at(s, sub, j),
            None => forall|j: int| i <= j < s.len() ==> !occurs_at(s, sub, j),
        },
    decreases s.len() - i,
{
    if i < s.len() && !occurs_at(s, sub, i) {
        lemma_find_from(s, sub, i + 1);
    }
}

/// Law: `substr_index` gives the first occurrence of `sub` among the positions
/// of characters of `s`, and `None` exactly when there is none.
pub proof fn lemma_substr_index(s: Seq<char>, sub: Seq<char>)
    ensures
        match substr_index(s, sub) {
            Some(k) => 0 <= k < s.len() && occurs_at(s, sub, k) && forall|j: int|
                0 <= j < k ==> !occurs_at(s, sub, j),
            None => forall|j: int| 0 <= j < s.len() ==> !occurs_at(s, sub, j),
        },
{
    lemma_find_from(s, sub, 0);
}

/// Law: a word that `word_index` finds occurs there, at the first position
/// where it occurs at all, and stands apart from its neighbours: a space
/// precedes it unless it starts the text, and the character `byte_len(sub)`
/// positions on is a space unless the text ends before it. When it finds
/// nothing, either `sub` does not occur, or its first occurrence touches a
/// character other than a space on one side.
pub proof fn lemma_word_index(s: Seq<char>, sub: Seq<char>)
    ensures
        word_index(s, sub) matches Some(i) ==> {
            &&& 0 <= i < s.len()
            &&& occurs_at(s, sub, i)
            &&& forall|j: int| 0 <= j < i ==> !occurs_at(s, sub, j)
            &&& i > 0 ==> s[i - 1] == ' '
            &&& i + byte_len(sub) < s.len() ==> s[i + byte_len(sub)] == ' '
        },
        word_index(s, sub) is None ==> forall|i: int|
            0 <= i < s.len() && occurs_at(s, sub, i) && (forall|j: int|
                0 <= j < i ==> !occurs_at(s, sub, j)) ==> {
                ||| i > 0 && s[i - 1] != ' '
                ||| i + byte_len(sub) < s.len() && s[i + byte_len(sub)] != ' '
            },
{
    lemma_substr_index(s, sub);
    if word_index(s, sub) is None {
        assert forall|i: int|
            0 <= i < s.len() && occurs_at(s, sub, i) && (forall|j: int|
                0 <= j < i ==> !occurs_at(s, sub, j)) implies {
                ||| i > 0 && s[i - 1] != ' '
                ||| i + byte_len(sub) < s.len() && s[i + byte_len(sub)] != ' '
            } by {
            let k = substr_index(s, sub).unwrap();
            if k < i {
                assert(!occurs_at(s, sub, k));
            }
            if i < k {
                assert(!occurs_at(s, sub, i));
            }
        }
    }
}

/// Law: the search never runs off an ASCII text.
pub proof fn lemma_ascii_search_safe(s: Seq<char>, sub: Seq<char>)
    requires
        is_ascii_chars(s),
    ensures
        !substr_search_panics(s, sub),
{
    lemma_byte_len_ascii(s);
}

/// An optional position as an integer.
pub open spec fn opt_int(o: Option<usize>) -> Option<int> {
    match o {
        Some(i) => Some(i as int),
        None => None,
    }
}

/// `sub` occurs somewhere in `s` (an empty `sub` occurs in every text).
pub open spec fn contains_seq(s: Seq<char>, sub: Seq<char>) -> bool {
    exists|i: int| occurs_at(s, sub, i)
}

/// The first position of the characters `p` among those of `s` (see `substr_index`).
fn find_chars(s: &Vec<char>, p: &Vec<char>) -> (r: Option<usize>)
    ensures
        opt_int(r) == substr_index(s@, p@),
{
    let n = s.len();
    let m = p.len();
    let mut i: usize = 0;
    while i < n
        invariant
            n == s@.len(),
            m == p@.len(),
            i <= n,
            forall|k: int| 0 <= k < i ==> !occurs_at(s@, p@, k),
        decreases n - i,
    {
        let mut found = true;
        let mut j: usize = 0;
        while found && j < m
            invariant
                n == s@.len(),
                m == p@.len(),
                i < n,
                j <= m,
                found ==> forall|k: int| 0 <= k < j ==> i + k < n && s@[i + k] == p@[k],
                !found ==> !occurs_at(s@, p@, i as int),
            decreases 2 * (m - j) + (if found { 1int } else { 0int }),
        {
            if j >= n - i {
                found = false;
            } else if s[i + j] != p[j] {
                proof {
                    if i + m <= n {
                        assert(s@.subrange(i as int, i + m)[j as int] == s@[i + j]);
                    }
                }
                found = false;
            } else {
                j = j + 1;
            }
        }
        if found {
            if m > 0 {
                assert(p@[m - 1] == s@[i + (m - 1)]);
            }
            assert(s@.subrange(i as int, i + m) =~= p@);
            assert(occurs_at(s@, p@, i as int));
            proof {
                lemma_substr_index(s@, p@);
            }
            return Some(i);
        }
        i = i + 1;
    }
    proof {
        lemma_substr_index(s@, p@);
    }
    None
}

/// The character position of the first occurrence of `substr` in `string`.
pub fn index_of_substr(string: &str, substr: &str) -> (r: Option<usize>)
    requires
        !substr_search_panics(string@, substr@),
    ensures
        opt_int(r) == substr_index(string@, substr@),
{
    let s = chars_of(string);
    let p = chars_of(substr);
    find_chars(&s, &p)
}

/// Whether searching `string` for `substr` by position would run off the
/// characters of `string` (see `substr_search_panics`).
pub fn search_runs_off(string: &str, substr: &str) -> (r: bool)
    ensures
        r == substr_search_panics(string@, substr@),
{
    let s = chars_of(string);
    let p = chars_of(substr);
    let found = find_chars(&s, &p);
    if found.is_some() {
        return false;
    }
    assert(substr_index(string@, substr@) is None);
    let n = s.len();
    let m = p.len();
    let bytes = byte_len_of(string);
    if bytes <= n {
        return false;
    }
    assert(byte_len(string@) > string@.len());
    let mut i: usize = 0;
    while i < n
        invariant
            s@ == string@,
            p@ == substr@,
            n == s@.len(),
            m == p@.len(),
            i <= n,
            substr_index(string@, substr@) is None,
            byte_len(string@) > string@.len(),
            forall|j: int|
                0 <= j < i ==> !(n - j < m && #[trigger] s@.subrange(j, n as int) == p@.subrange(
                    0,
                    n - j,
                )),
        decreases n - i,
    {
        if n - i < m {
            let mut same = true;
            let mut t: usize = 0;
            while same && t < n - i
                invariant
                    s@ == string@,
                    p@ == substr@,
                    n == s@.len(),
                    m == p@.len(),
                    i < n,
                    n - i < m,
                    t <= n - i,
                    same ==> forall|u: int| 0 <= u < t ==> s@[i + u] == p@[u],
                    !same ==> s@.subrange(i as int, n as int) != p@.subrange(0, n - i),
                decreases 2 * (n - i - t) + (if same { 1int } else { 0int }),
            {
                if s[i + t] != p[t] {
                    assert(s@.subrange(i as int, n as int)[t as int] == s@[i + t]);
                    assert(p@.subrange(0, n - i)[t as int] == p@[t as int]);
                    same = false;
                } else {
                    t = t + 1;
                }
            }
            if same {
                assert(s@.subrange(i as int, n as int) =~= p@.subrange(0, n - i));
                assert(string@.subrange(i as int, string@.len() as int) == substr@.subrange(
                    0,
                    string@.len() - i,
                ));
                assert(string@.len() - i < substr@.len());
                assert(substr_search_panics(string@, substr@));
                return true;
            }
        }
        i = i + 1;
    }
    false
}

/// Whether `sub` occurs in `s`.
pub fn contains_text(s: &str, sub: &str) -> (r: bool)
    ensures
        r == contains_seq(s@, sub@),
{
    let sv = chars_of(s);
    let pv = chars_of(sub);
    proof {
        lemma_substr_index(s@, sub@);
    }
    if pv.len() == 0 {
        assert(s@.subrange(0, 0) =~= sub@);
        assert(occurs_at(s@, sub@, 0));
        return true;
    }
    let found = find_chars(&sv, &pv);
    proof {
        if found is None {
            assert forall|i: int| !occurs_at(s@, sub@, i) by {
                if occurs_at(s@, sub@, i) {
                    assert(0 <= i < s@.len());
                }
            }
        }
    }
    found.is_some()
}

/// The first position of `c` in `s`.
pub fn char_index(s: &str, c: char) -> (r: Option<usize>)
    ensures
        opt_int(r) == substr_index(s@, seq![c]),
{
    let sv = chars_of(s);
    let pv = vec![c];
    assert(pv@ =~= seq![c]);
    find_chars(&sv, &pv)
}

/// The character position of `substr` in `string`, if its first occurrence
/// stands there as a word (see `word_index`).
pub fn index_of_word(string: &str, substr: &str) -> (r: Option<usize>)
    requires
        !substr_search_panics(string@, substr@),
    ensures
        opt_int(r) == word_index(string@, substr@),
{
    proof {
        lemma_substr_index(string@, substr@);
    }
    let i = match index_of_substr(string, substr) {
        None => {
            return None;
        },
        Some(i) => i,
    };
    let n = string.unicode_len();
    let preceding_ok = if i == 0 {
        true
    } else {
        string.get_char(i - 1) == ' '
    };
    let sub_len = byte_len_of(substr);
    let trailing_ok = match i.checked_add(sub_len) {
        None => true,
        Some(t) => if t >= n {
            true
        } else {
            string.get_char(t) == ' '
        },
    };
    if preceding_ok && trailing_ok {
        Some(i)
    } else {
        None
    }
}

/// `string` without a surrounding pair of quotes (see `unquoted`).
pub fn unquote_string(string: &String) -> (r: String)
    ensures
        r@ == unquoted(string@),
{
    let len = byte_len_of(string.as_str());
    if len < 2 {
        let r = String::new();
        assert(r@ =~= unquoted(string@));
        return r;
    }
    assert(string@.len() > 0);
    let first = string.as_str().get_char(0);
    if first == '\'' || first == '"' {
        let rest = skip_string(string.as_str(), 1);
        assert(rest@ =~= string@.drop_first());
        take_string(rest.as_str(), len - 2)
    } else {
        string.clone()
    }
}

/// Law: one pair of quotes around an ASCII text is removed, whichever quote
/// character it is.
pub proof fn lemma_unquote_quoted(q: char, body: Seq<char>)
    requires
        q == '\'' || q == '"',
        is_ascii_chars(body),
    ensures
        unquoted(seq![q] + body + seq![q]) == body,
{
    let full = seq![q] + body + seq![q];
    assert(is_ascii_chars(full)) by {
        assert forall|i| 0 <= i < full.len() implies '\0' <= #[trigger] full[i] <= '\u{7f}' by {
            if 0 < i < full.len() - 1 {
                assert(full[i] == body[i - 1]);
            }
        }
    }
    lemma_byte_len_ascii(full);
    assert(full[0] == q);
    assert(full.drop_first() =~= body + seq![q]);
    assert(full.drop_first().subrange(0, body.len() as int) =~= body);
}

/// Law: a text of two bytes or more that does not start with a quote is kept.
pub proof fn lemma_unquote_unquoted(s: Seq<char>)
    requires
        byte_len(s) >= 2,
        s.len() > 0,
        s[0] != '\'' && s[0] != '"',
    ensures
        unquoted(s) == s,
{
}

/// Law: a text of fewer than two bytes has no pair of quotes to lose, and
/// gives the empty text.
pub proof fn lemma_unquote_short(s: Seq<char>)
    requires
        byte_len(s) < 2,
    ensures
        unquoted(s) == Seq::<char>::empty(),
{
}

/// The pieces of `s` between occurrences of `sep`, as `str::split` gives them:
/// one piece more than there are separators, empty pieces included.
pub open spec fn split_on(s: Seq<char>, sep: char) -> Seq<Seq<char>>
    decreases s.len(),
{
    if s.len() == 0 {
        seq![Seq::empty()]
    } else {
        let rest = split_on(s.drop_first(), sep);
        if s[0] == sep {
            seq![Seq::<char>::empty()] + rest
        } else {
            prepend_to_first(seq![s[0]], rest)
        }
    }
}

/// `ps` with `pre` put in front of its first piece.
pub open spec fn prepend_to_first(pre: Seq<char>, ps: Seq<Seq<char>>) -> Seq<Seq<char>> {
    ps.update(0, pre + ps[0])
}

/// The texts of a list of strings.
pub open spec fn strings_view(v: Seq<String>) -> Seq<Seq<char>> {
    v.map_values(|x: String| x@)
}

/// Splitting always gives at least one piece.
pub proof fn lemma_split_nonempty(s: Seq<char>, sep: char)
    ensures
        split_on(s, sep).len() >= 1,
    decreases s.len(),
{
    if s.len() > 0 {
        lemma_split_nonempty(s.drop_first(), sep);
    }
}

/// A text without the separator is one piece.
pub proof fn lemma_split_without_sep(y: Seq<char>, sep: char)
    requires
        forall|k: int| 0 <= k < y.len() ==> y[k] != sep,
    ensures
        split_on(y, sep) == seq![y],
    decreases y.len(),
{
    if y.len() == 0 {
        assert(y =~= Seq::<char>::empty());
    } else {
        lemma_split_without_sep(y.drop_first(), sep);
        assert(seq![y[0]] + y.drop_first() =~= y);
        assert(prepend_to_first(seq![y[0]], seq![y.drop_first()]) =~= seq![y]);
    }
}

/// Splitting at a first separator: the part before it is the first piece,
/// and the pieces of the part after it follow.
pub proof fn lemma_split_at_first(x: Seq<char>, sep: char, y: Seq<char>)
    requires
        forall|k: int| 0 <= k < x.len() ==> x[k] != sep,
    ensures
        split_on(x + seq![sep] + y, sep) == seq![x] + split_on(y, sep),
    decreases x.len(),
{
    let t = x + seq![sep] + y;
    if x.len() == 0 {
        assert(t[0] == sep);
        assert(t.drop_first() =~= y);
        assert(x =~= Seq::<char>::empty());
    } else {
        assert(t[0] == x[0]);
        assert(t.drop_first() =~= x.drop_first() + seq![sep] + y);
        lemma_split_at_first(x.drop_first(), sep, y);
        let rest = split_on(y, sep);
        assert(seq![x[0]] + x.drop_first() =~= x);
        assert(prepend_to_first(seq![x[0]], seq![x.drop_first()] + rest) =~= seq![x] + rest);
    }
}

/// Splitting the tail of `s` from position `i`, one character at a time.
proof fn lemma_split_step(s: Seq<char>, sep: char, i: int)
    requires
        0 <= i < s.len(),
    ensures
        split_on(s.subrange(i, s.len() as int), sep) == if s[i] == sep {
            seq![Seq::<char>::empty()] + split_on(s.subrange(i + 1, s.len() as int), sep)
        } else {
            prepend_to_first(seq![s[i]], split_on(s.subrange(i + 1, s.len() as int), sep))
        },
{
    let t = s.subrange(i, s.len() as int);
    assert(t.drop_first() =~= s.subrange(i + 1, s.len() as int));
    assert(t[0] == s[i]);
}

/// The pieces of `s` between occurrences of `sep` (see `split_on`).
pub fn split_text(s: &str, sep: char) -> (r: Vec<String>)
    ensures
        strings_view(r@) == split_on(s@, sep),
{
    let chars = chars_of(s);
    let n = chars.len();
    let mut pieces: Vec<String> = Vec::new();
    let mut start: usize = 0;
    let mut i: usize = 0;
    proof {
        lemma_split_nonempty(s@, sep);
        assert(s@.subrange(0, n as int) =~= s@);
        assert(prepend_to_first(s@.subrange(0, 0), split_on(s@, sep)) =~= split_on(s@, sep));
    }
    while i < n
        invariant
            chars@ == s@,
            n == s@.len(),
            start <= i <= n,
            split_on(s@, sep) == strings_view(pieces@) + prepend_to_first(
                s@.subrange(start as int, i as int),
                split_on(s@.subrange(i as int, n as int), sep),
            ),
        decreases n - i,
    {
        proof {
            lemma_split_step(s@, sep, i as int);
            lemma_split_nonempty(s@.subrange(i + 1, n as int), sep);
        }
        let ghost rest = split_on(s@.subrange(i + 1, n as int), sep);
        let ghost pre = s@.subrange(start as int, i as int);
        if chars[i] == sep {
            let piece = substring(s, start, i);
            let ghost before = strings_view(pieces@);
            pieces.push(piece);
            assert(strings_view(pieces@) =~= before.push(pre));
            assert(prepend_to_first(pre, seq![Seq::<char>::empty()] + rest) =~= seq![pre] + rest);
            assert(prepend_to_first(s@.subrange(i + 1, i + 1), rest) =~= rest);
            assert(before + (seq![pre] + rest) =~= before.push(pre) + rest);
            start = i + 1;
        } else {
            assert(s@.subrange(start as int, i + 1) =~= pre + seq![s@[i as int]]);
            assert(pre + (seq![s@[i as int]] + rest[0]) =~= s@.subrange(start as int, i + 1) + rest[0]);
            assert(prepend_to_first(pre, prepend_to_first(seq![s@[i as int]], rest)) =~= prepend_to_first(
                s@.subrange(start as int, i + 1),
                rest,
            ));
        }
        i = i + 1;
    }
    let ghost pre = s@.subrange(start as int, n as int);
    assert(s@.subrange(n as int, n as int) =~= Seq::<char>::empty());
    assert(prepend_to_first(pre, seq![Seq::<char>::empty()]) =~= seq![pre]);
    let piece = substring(s, start, n);
    let ghost before = strings_view(pieces@);
    pieces.push(piece);
    assert(strings_view(pieces@) =~= before.push(pre));
    pieces
}

} // verus!
