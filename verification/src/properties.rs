//! Laws of rewriting command lines with aliases.
use vstd::prelude::*;
use vstd::utf8::is_ascii_chars;
use crate::alias::{
    applies, declaration_ok, declaration_sides, declares_global, first_index, lemma_pick,
    lemma_shorten_iter_stable, lemma_shorten_step_bytes, lengthen_ok, lengthen_rec, parse_all,
    parse_declaration, pick, scan_safe, scoped_use, searched, shorten_ok, shorten_in_reach, shorten_rec,
    splice, AliasScope, AliasView,
};
use crate::text::{byte_len, lemma_byte_len_ascii, skip_chars, take_chars};
use crate::util::{
    contains_seq, lemma_ascii_search_safe, lemma_split_at_first, lemma_split_without_sep,
    lemma_substr_index, lemma_unquote_quoted, lemma_unquote_unquoted, lemma_word_index,
    occurs_at, split_on, substr_index, substr_search_panics, unquoted, word_index,
};

verus! {

/// Both the alias and its command are ASCII, and the alias is the shorter.
pub open spec fn abbreviates(a: AliasView) -> bool {
    &&& is_ascii_chars(a.alias)
    &&& is_ascii_chars(a.command)
    &&& a.alias.len() < a.command.len()
}

/// Both the alias and its command are ASCII, and the alias is no longer.
pub open spec fn no_longer(a: AliasView) -> bool {
    &&& is_ascii_chars(a.alias)
    &&& is_ascii_chars(a.command)
    &&& a.alias.len() <= a.command.len()
}

/// Every alias of the list is no longer than its command.
pub open spec fn all_no_longer(als: Seq<AliasView>) -> bool {
    forall|i: int| 0 <= i < als.len() ==> no_longer(#[trigger] als[i])
}

/// Every alias of the list abbreviates its command.
pub open spec fn all_abbreviate(als: Seq<AliasView>) -> bool {
    forall|i: int| 0 <= i < als.len() ==> abbreviates(#[trigger] als[i])
}

/// The first copy of `v` in `als` is where `first_index` says, at or before any copy.
pub proof fn lemma_first_index(als: Seq<AliasView>, v: AliasView, p: int)
    requires
        0 <= p < als.len(),
        als[p] == v,
    ensures
        0 <= first_index(als, v) <= p,
        als[first_index(als, v)] == v,
        forall|j: int| 0 <= j < first_index(als, v) ==> als[j] != v,
    decreases p,
{
    if exists|j: int| 0 <= j < p && als[j] == v {
        let j = choose|j: int| 0 <= j < p && als[j] == v;
        lemma_first_index(als, v, j);
    } else {
        assert(0 <= p < als.len() && als[p] == v && forall|j: int| 0 <= j < p ==> als[j] != v);
        let f = first_index(als, v);
        if f > p {
            assert(als[p] != v);
        }
    }
}

/// Law: expanding never shortens a command line; it uses each alias of the
/// list at most once (no more aliases than `fuel`); the text is unchanged
/// exactly when no alias was used, and grows otherwise; every alias used is
/// one of the list.
pub proof fn lemma_lengthen_rec(s: Seq<char>, als: Seq<AliasView>, fuel: nat)
    ensures
        byte_len(lengthen_rec(s, als, fuel).0) >= byte_len(s),
        lengthen_rec(s, als, fuel).1.len() <= fuel,
        lengthen_rec(s, als, fuel).1.len() == 0 ==> lengthen_rec(s, als, fuel).0 == s,
        lengthen_rec(s, als, fuel).1.len() > 0 ==> byte_len(lengthen_rec(s, als, fuel).0) > byte_len(
            s,
        ),
        forall|k: int|
            0 <= k < lengthen_rec(s, als, fuel).1.len() ==> als.contains(
                #[trigger] lengthen_rec(s, als, fuel).1[k],
            ),
    decreases fuel,
{
    if fuel > 0 {
        match pick(als, s, true) {
            None => {},
            Some(p) => {
                lemma_pick(als, s, true);
                let a = als[p];
                let l = a.expand_once(s);
                if byte_len(l) > byte_len(s) {
                    lemma_first_index(als, a, p);
                    let f = first_index(als, a);
                    let rem = als.remove(f);
                    lemma_lengthen_rec(l, rem, (fuel - 1) as nat);
                    let r2 = lengthen_rec(l, rem, (fuel - 1) as nat);
                    let r = lengthen_rec(s, als, fuel);
                    assert(r.1 == seq![a] + r2.1);
                    assert forall|k: int| 0 <= k < r.1.len() implies als.contains(#[trigger] r.1[k]) by {
                        if k == 0 {
                            assert(als[p] == r.1[k]);
                        } else {
                            assert(r.1[k] == r2.1[k - 1]);
                            assert(rem.contains(r2.1[k - 1]));
                            let j = choose|j: int| 0 <= j < rem.len() && rem[j] == r2.1[k - 1];
                            if j < f {
                                assert(rem[j] == als[j]);
                            } else {
                                assert(rem[j] == als[j + 1]);
                            }
                        }
                    }
                }
            },
        }
    }
}

/// Law: shortening never lengthens a command line; the text is unchanged
/// exactly when no alias was used, and shrinks otherwise; every alias used is
/// one of the list.
pub proof fn lemma_shorten_rec(s: Seq<char>, als: Seq<AliasView>)
    ensures
        byte_len(shorten_rec(s, als).0) <= byte_len(s),
        shorten_rec(s, als).1.len() == 0 ==> shorten_rec(s, als).0 == s,
        shorten_rec(s, als).1.len() > 0 ==> byte_len(shorten_rec(s, als).0) < byte_len(s),
        forall|k: int|
            0 <= k < shorten_rec(s, als).1.len() ==> als.contains(#[trigger] shorten_rec(s, als).1[k]),
    decreases byte_len(s),
{
    match pick(als, s, false) {
        None => {},
        Some(p) => {
            lemma_pick(als, s, false);
            let a = als[p];
            let t = a.use_in_result(s);
            if byte_len(t) < byte_len(s) {
                lemma_shorten_rec(t, als);
                let r2 = shorten_rec(t, als);
                let r = shorten_rec(s, als);
                assert(r.1 == seq![a] + r2.1);
                assert forall|k: int| 0 <= k < r.1.len() implies als.contains(#[trigger] r.1[k]) by {
                    if k == 0 {
                        assert(als[p] == r.1[k]);
                    } else {
                        assert(r.1[k] == r2.1[k - 1]);
                    }
                }
            }
        },
    }
}

/// Law: shortening is idempotent. A command line that has been shortened
/// cannot be shortened further, and shortening it again uses no alias.
pub proof fn lemma_shorten_idempotent(s: Seq<char>, als: Seq<AliasView>)
    requires
        shorten_ok(s, als),
    ensures
        shorten_ok(shorten_rec(s, als).0, als),
        shorten_rec(shorten_rec(s, als).0, als) == (shorten_rec(s, als).0, Seq::<AliasView>::empty()),
    decreases byte_len(s),
{
    match pick(als, s, false) {
        None => {},
        Some(p) => {
            let a = als[p];
            let t = a.use_in_result(s);
            if byte_len(t) < byte_len(s) {
                lemma_shorten_idempotent(t, als);
            }
        },
    }
}

/// Rounds of replacing can be counted from the first round on.
pub proof fn lemma_shorten_iter_shift(a: AliasView, s: Seq<char>, n: nat)
    ensures
        a.shorten_iter(s, n + 1) == a.shorten_iter(a.shorten_step(s), n),
    decreases n,
{
    let s1 = a.shorten_step(s);
    if n > 0 {
        lemma_shorten_iter_shift(a, s, (n - 1) as nat);
        assert(a.shorten_iter(s, n + 1) == a.shorten_step(a.shorten_iter(s, n)));
        assert(a.shorten_iter(s1, n) == a.shorten_step(a.shorten_iter(s1, (n - 1) as nat)));
    } else {
        assert(a.shorten_iter(s, 1) == a.shorten_step(a.shorten_iter(s, 0)));
        assert(a.shorten_iter(s, 0) == s);
        assert(a.shorten_iter(s1, 0) == s1);
    }
}

/// Splicing ASCII into ASCII gives ASCII, of the expected length.
pub proof fn lemma_splice_ascii(s: Seq<char>, i: int, w: int, ins: Seq<char>)
    requires
        is_ascii_chars(s),
        is_ascii_chars(ins),
        0 <= i <= s.len(),
        0 <= w,
        i + w <= s.len(),
    ensures
        is_ascii_chars(splice(s, i, w, ins)),
        splice(s, i, w, ins).len() == s.len() - w + ins.len(),
{
    let r = splice(s, i, w, ins);
    let head = take_chars(s, i);
    let tail = skip_chars(s, i + w);
    assert(head =~= s.subrange(0, i));
    if i + w < s.len() {
        assert(tail =~= s.subrange(i + w, s.len() as int));
    } else {
        assert(tail.len() == 0);
    }
    assert forall|k: int| 0 <= k < r.len() implies '\0' <= #[trigger] r[k] <= '\u{7f}' by {
        if k < i {
            assert(r[k] == s[k]);
        } else if k < i + ins.len() {
            assert(r[k] == ins[k - i]);
        } else {
            assert(r[k] == s[k - ins.len() + w]);
        }
    }
}

/// Where an alias's command is used, the whole command lies within the text.
pub proof fn lemma_command_use_within(a: AliasView, s: Seq<char>)
    requires
        a.command_use(s) is Some,
    ensures
        0 <= a.command_use(s).unwrap(),
        a.command_use(s).unwrap() + a.command.len() <= s.len(),
{
    lemma_substr_index(s, a.command);
}

/// Where an alias is used, the whole alias lies within the text.
pub proof fn lemma_alias_use_within(a: AliasView, s: Seq<char>)
    requires
        a.alias_use(s) is Some,
    ensures
        0 <= a.alias_use(s).unwrap(),
        a.alias_use(s).unwrap() + a.alias.len() <= s.len(),
{
    lemma_substr_index(s, a.alias);
}

/// Law: where an alias is used, it occurs as a word of its own, and nowhere
/// earlier: at the very start of the line, or, for a global alias, after a
/// space; the character `byte_len(alias)` positions on is a space unless the
/// line ends before it. Conversely, a first occurrence that stands so is
/// where the alias is used. The same holds of where its command is used.
pub proof fn lemma_use_position(a: AliasView, s: Seq<char>)
    ensures
        a.alias_use(s) matches Some(i) ==> {
            &&& occurs_at(s, a.alias, i)
            &&& forall|j: int| 0 <= j < i ==> !occurs_at(s, a.alias, j)
            &&& i == 0 || (a.scope == AliasScope::Global && s[i - 1] == ' ')
            &&& i + byte_len(a.alias) < s.len() ==> s[i + byte_len(a.alias)] == ' '
        },
        a.command_use(s) matches Some(i) ==> {
            &&& occurs_at(s, a.command, i)
            &&& forall|j: int| 0 <= j < i ==> !occurs_at(s, a.command, j)
            &&& i == 0 || (a.scope == AliasScope::Global && s[i - 1] == ' ')
            &&& i + byte_len(a.command) < s.len() ==> s[i + byte_len(a.command)] == ' '
        },
        forall|i: int|
            0 <= i < s.len() && #[trigger] occurs_at(s, a.alias, i) && (forall|j: int|
                0 <= j < i ==> !occurs_at(s, a.alias, j)) && (i == 0 || s[i - 1] == ' ') && (i
                + byte_len(a.alias) >= s.len() || s[i + byte_len(a.alias)] == ' ') && (i == 0
                || a.scope == AliasScope::Global) ==> a.alias_use(s) == Some(i),
        forall|i: int|
            0 <= i < s.len() && #[trigger] occurs_at(s, a.command, i) && (forall|j: int|
                0 <= j < i ==> !occurs_at(s, a.command, j)) && (i == 0 || s[i - 1] == ' ') && (i
                + byte_len(a.command) >= s.len() || s[i + byte_len(a.command)] == ' ') && (i == 0
                || a.scope == AliasScope::Global) ==> a.command_use(s) == Some(i),
{
    lemma_word_index(s, a.alias);
    lemma_word_index(s, a.command);
    lemma_scoped_use_found(s, a.alias, a.scope);
    lemma_scoped_use_found(s, a.command, a.scope);
}

/// A first occurrence of `w` that stands as a word, at the start or under the
/// global scope, is where `w` is used.
proof fn lemma_scoped_use_found(s: Seq<char>, w: Seq<char>, scope: AliasScope)
    ensures
        forall|i: int|
            0 <= i < s.len() && #[trigger] occurs_at(s, w, i) && (forall|j: int|
                0 <= j < i ==> !occurs_at(s, w, j)) && (i == 0 || s[i - 1] == ' ') && (i
                + byte_len(w) >= s.len() || s[i + byte_len(w)] == ' ') && (i == 0 || scope
                == AliasScope::Global) ==> scoped_use(s, w, scope) == Some(i),
{
    lemma_word_index(s, w);
    assert forall|i: int|
        0 <= i < s.len() && #[trigger] occurs_at(s, w, i) && (forall|j: int|
            0 <= j < i ==> !occurs_at(s, w, j)) && (i == 0 || s[i - 1] == ' ') && (i + byte_len(w)
            >= s.len() || s[i + byte_len(w)] == ' ') && (i == 0 || scope == AliasScope::Global)
        implies scoped_use(s, w, scope) == Some(i) by {
        match word_index(s, w) {
            Some(k) => {
                if k < i {
                    assert(!occurs_at(s, w, k));
                }
                if i < k {
                    assert(!occurs_at(s, w, i));
                }
            },
            None => {},
        }
    }
}

/// Law: expanding an alias where it is used puts its command in its place:
/// the line before the use, the command, then the line from `byte_len(alias)`
/// characters after the use on (for an ASCII alias, exactly what follows the
/// alias). A line that does not use the alias is left as it is.
pub proof fn lemma_expand_once_replaces(a: AliasView, s: Seq<char>)
    ensures
        a.alias_use(s) matches Some(i) ==> a.expand_once(s) == s.subrange(0, i) + a.command
            + skip_chars(s, i + byte_len(a.alias)),
        a.alias_use(s) matches Some(i) ==> occurs_at(a.expand_once(s), a.command, i),
        a.alias_use(s) matches Some(i) ==> (is_ascii_chars(a.alias) ==> a.expand_once(s)
            == s.subrange(0, i) + a.command + s.subrange(i + a.alias.len(), s.len() as int)),
        a.alias_use(s) is None ==> a.expand_once(s) == s,
{
    if a.alias_use(s) is Some {
        let i = a.alias_use(s).unwrap();
        lemma_alias_use_within(a, s);
        assert(take_chars(s, i) =~= s.subrange(0, i));
        let e = a.expand_once(s);
        assert(e.subrange(i, i + a.command.len()) =~= a.command);
        if is_ascii_chars(a.alias) {
            lemma_byte_len_ascii(a.alias);
            if i + a.alias.len() < s.len() {
                assert(skip_chars(s, i + a.alias.len()) =~= s.subrange(
                    i + a.alias.len(),
                    s.len() as int,
                ));
            } else {
                assert(s.subrange(i + a.alias.len(), s.len() as int) =~= Seq::<char>::empty());
                assert(skip_chars(s, i + a.alias.len()) =~= Seq::<char>::empty());
            }
        }
    }
}

/// Law: shortening one use of an alias's command puts the alias in its place:
/// the line before the use, the alias, then the line from `byte_len(command)`
/// characters after the use on (for an ASCII command, exactly what follows
/// the command). A line that does not use the command is left as it is.
pub proof fn lemma_shorten_step_replaces(a: AliasView, s: Seq<char>)
    ensures
        a.command_use(s) matches Some(i) ==> a.shorten_step(s) == s.subrange(0, i) + a.alias
            + skip_chars(s, i + byte_len(a.command)),
        a.command_use(s) matches Some(i) ==> occurs_at(a.shorten_step(s), a.alias, i),
        a.command_use(s) matches Some(i) ==> (is_ascii_chars(a.command) ==> a.shorten_step(s)
            == s.subrange(0, i) + a.alias + s.subrange(i + a.command.len(), s.len() as int)),
        a.command_use(s) is None ==> a.shorten_step(s) == s,
{
    if a.command_use(s) is Some {
        let i = a.command_use(s).unwrap();
        lemma_command_use_within(a, s);
        assert(take_chars(s, i) =~= s.subrange(0, i));
        let e = a.shorten_step(s);
        assert(e.subrange(i, i + a.alias.len()) =~= a.alias);
        if is_ascii_chars(a.command) {
            lemma_byte_len_ascii(a.command);
            if i + a.command.len() < s.len() {
                assert(skip_chars(s, i + a.command.len()) =~= s.subrange(
                    i + a.command.len(),
                    s.len() as int,
                ));
            } else {
                assert(s.subrange(i + a.command.len(), s.len() as int) =~= Seq::<char>::empty());
                assert(skip_chars(s, i + a.command.len()) =~= Seq::<char>::empty());
            }
        }
    }
}

/// Each round of replacing by an abbreviating alias keeps an ASCII text
/// ASCII and makes it shorter while the command is used.
pub proof fn lemma_shorten_step_ascii(a: AliasView, s: Seq<char>)
    requires
        abbreviates(a),
        is_ascii_chars(s),
    ensures
        is_ascii_chars(a.shorten_step(s)),
        a.command_use(s) is Some ==> a.shorten_step(s).len() < s.len(),
        a.command_use(s) is None ==> a.shorten_step(s) == s,
{
    if a.command_use(s) is Some {
        lemma_command_use_within(a, s);
        lemma_byte_len_ascii(a.command);
        let i = a.command_use(s).unwrap();
        lemma_splice_ascii(s, i, a.command.len() as int, a.alias);
    }
}

/// All rounds of replacing by an abbreviating alias keep an ASCII text ASCII
/// and never make it longer.
pub proof fn lemma_shorten_iter_ascii(a: AliasView, s: Seq<char>, n: nat)
    requires
        abbreviates(a),
        is_ascii_chars(s),
    ensures
        is_ascii_chars(a.shorten_iter(s, n)),
        a.shorten_iter(s, n).len() <= s.len(),
    decreases n,
{
    if n > 0 {
        lemma_shorten_iter_ascii(a, s, (n - 1) as nat);
        lemma_shorten_step_ascii(a, a.shorten_iter(s, (n - 1) as nat));
    }
}

/// Law: replacing the command of an abbreviating alias in an ASCII command
/// line comes to an end, and gives an ASCII text no longer than the input.
pub proof fn lemma_use_in_halts(a: AliasView, s: Seq<char>)
    requires
        abbreviates(a),
        is_ascii_chars(s),
    ensures
        a.use_in_halts(s),
        is_ascii_chars(a.use_in_result(s)),
        byte_len(a.use_in_result(s)) <= byte_len(s),
    decreases s.len(),
{
    if a.command_use(s) is None {
        lemma_ascii_search_safe(s, a.command);
        assert(a.shorten_iter(s, 0) == s);
        assert(a.settles_after(s, 0));
    } else {
        let s1 = a.shorten_step(s);
        lemma_shorten_step_ascii(a, s);
        lemma_use_in_halts(a, s1);
        let n1 = choose|n: nat| a.settles_after(s1, n);
        lemma_shorten_iter_shift(a, s, n1);
        assert forall|k: nat| k <= n1 + 1 implies !substr_search_panics(
            #[trigger] a.shorten_iter(s, k),
            a.command,
        ) by {
            if k == 0 {
                lemma_ascii_search_safe(s, a.command);
            } else {
                lemma_shorten_iter_shift(a, s, (k - 1) as nat);
                assert(a.shorten_iter(s, k) == a.shorten_iter(s1, (k - 1) as nat));
            }
        }
        assert(a.settles_after(s, n1 + 1));
    }
    let n = choose|n: nat| a.settles_after(s, n);
    lemma_shorten_iter_ascii(a, s, n);
    lemma_byte_len_ascii(s);
    lemma_byte_len_ascii(a.use_in_result(s));
}

/// Law: expanding an ASCII command line with ASCII aliases that are no
/// longer than their commands runs without fault, and gives an ASCII text.
pub proof fn lemma_lengthen_ok(s: Seq<char>, als: Seq<AliasView>, fuel: nat)
    requires
        is_ascii_chars(s),
        all_no_longer(als),
    ensures
        lengthen_ok(s, als, fuel),
        is_ascii_chars(lengthen_rec(s, als, fuel).0),
    decreases fuel,
{
    if fuel > 0 {
        assert forall|i: int| 0 <= i < als.len() implies !substr_search_panics(
            s,
            searched(#[trigger] als[i], true),
        ) by {
            lemma_ascii_search_safe(s, searched(als[i], true));
        }
        assert forall|i: int| 0 <= i < als.len() && applies(#[trigger] als[i], s, true) implies byte_len(
            als[i].alias,
        ) <= byte_len(als[i].command) by {
            lemma_byte_len_ascii(als[i].alias);
            lemma_byte_len_ascii(als[i].command);
        }
        assert(scan_safe(als, s, true));
        match pick(als, s, true) {
            None => {},
            Some(p) => {
                lemma_pick(als, s, true);
                let a = als[p];
                let l = a.expand_once(s);
                if byte_len(l) > byte_len(s) {
                    lemma_alias_use_within(a, s);
                    lemma_byte_len_ascii(a.alias);
                    lemma_splice_ascii(s, a.alias_use(s).unwrap(), a.alias.len() as int, a.command);
                    lemma_first_index(als, a, p);
                    let f = first_index(als, a);
                    let rem = als.remove(f);
                    assert forall|i: int| 0 <= i < rem.len() implies no_longer(#[trigger] rem[i]) by {
                        if i < f {
                            assert(rem[i] == als[i]);
                        } else {
                            assert(rem[i] == als[i + 1]);
                        }
                    }
                    lemma_lengthen_ok(l, rem, (fuel - 1) as nat);
                }
            },
        }
    }
}

/// Law: expanding goes on while the line uses an alias not yet expanded. In
/// the expanded line, every alias of the list that is still used is one of
/// those reported used (each is expanded at most once); and none is reported
/// exactly when the line uses no alias at all. This holds of an ASCII line,
/// with ASCII aliases shorter than their commands, given a round for every
/// alias.
pub proof fn lemma_lengthen_complete(s: Seq<char>, als: Seq<AliasView>, fuel: nat)
    requires
        is_ascii_chars(s),
        all_abbreviate(als),
        fuel >= als.len(),
    ensures
        forall|i: int|
            0 <= i < als.len() && (#[trigger] als[i]).alias_use(lengthen_rec(s, als, fuel).0)
                is Some ==> lengthen_rec(s, als, fuel).1.contains(als[i]),
        lengthen_rec(s, als, fuel).1.len() == 0 <==> forall|i: int|
            0 <= i < als.len() ==> (#[trigger] als[i]).alias_use(s) is None,
    decreases fuel,
{
    let r = lengthen_rec(s, als, fuel);
    if fuel > 0 {
        lemma_pick(als, s, true);
        match pick(als, s, true) {
            None => {},
            Some(p) => {
                let a = als[p];
                assert(abbreviates(a));
                assert(applies(a, s, true));
                let i0 = a.alias_use(s).unwrap();
                lemma_alias_use_within(a, s);
                lemma_byte_len_ascii(a.alias);
                lemma_splice_ascii(s, i0, a.alias.len() as int, a.command);
                let l = a.expand_once(s);
                lemma_byte_len_ascii(s);
                lemma_byte_len_ascii(l);
                assert(byte_len(l) > byte_len(s));
                lemma_first_index(als, a, p);
                let f = first_index(als, a);
                let rem = als.remove(f);
                assert forall|j: int| 0 <= j < rem.len() implies abbreviates(#[trigger] rem[j]) by {
                    if j < f {
                        assert(rem[j] == als[j]);
                    } else {
                        assert(rem[j] == als[j + 1]);
                    }
                }
                lemma_lengthen_complete(l, rem, (fuel - 1) as nat);
                let r2 = lengthen_rec(l, rem, (fuel - 1) as nat);
                assert(r.0 == r2.0);
                assert(r.1 == seq![a] + r2.1);
                assert forall|i: int|
                    0 <= i < als.len() && (#[trigger] als[i]).alias_use(r.0) is Some implies r.1.contains(
                    als[i],
                ) by {
                    if als[i] == a {
                        assert(r.1[0] == a);
                    } else {
                        let j = if i < f {
                            i
                        } else {
                            i - 1
                        };
                        if i < f {
                            assert(rem[j] == als[i]);
                        } else {
                            assert(i != f);
                            assert(rem[j] == als[i]);
                        }
                        assert(rem[j].alias_use(r2.0) is Some);
                        assert(r2.1.contains(rem[j]));
                        let k = choose|k: int| 0 <= k < r2.1.len() && r2.1[k] == rem[j];
                        assert(r.1[k + 1] == r2.1[k]);
                    }
                }
                assert(r.1.len() > 0);
            },
        }
    }
}

/// Law: shortening an ASCII command line with aliases that all abbreviate
/// their commands runs without fault and comes to an end.
pub proof fn lemma_shorten_ok(s: Seq<char>, als: Seq<AliasView>)
    requires
        is_ascii_chars(s),
        all_abbreviate(als),
    ensures
        shorten_ok(s, als),
    decreases byte_len(s),
{
    assert forall|i: int| 0 <= i < als.len() implies !substr_search_panics(
        s,
        searched(#[trigger] als[i], false),
    ) by {
        lemma_ascii_search_safe(s, searched(als[i], false));
    }
    assert forall|i: int| 0 <= i < als.len() && applies(#[trigger] als[i], s, false) implies byte_len(
        als[i].alias,
    ) <= byte_len(als[i].command) by {
        lemma_byte_len_ascii(als[i].alias);
        lemma_byte_len_ascii(als[i].command);
    }
    assert(scan_safe(als, s, false));
    match pick(als, s, false) {
        None => {},
        Some(p) => {
            lemma_pick(als, s, false);
            let a = als[p];
            lemma_use_in_halts(a, s);
            let t = a.use_in_result(s);
            if byte_len(t) < byte_len(s) {
                lemma_shorten_ok(t, als);
            }
        },
    }
}

/// Replacing by an alias with fewer bytes than its command never makes a text
/// longer in bytes, however many rounds run.
pub proof fn lemma_shorten_iter_bytes(a: AliasView, s: Seq<char>, n: nat)
    requires
        byte_len(a.alias) < byte_len(a.command),
    ensures
        byte_len(a.shorten_iter(s, n)) <= byte_len(s),
    decreases n,
{
    if n > 0 {
        lemma_shorten_iter_bytes(a, s, (n - 1) as nat);
        lemma_shorten_step_bytes(a, a.shorten_iter(s, (n - 1) as nat));
    }
}

/// Law: with ASCII aliases shorter than their commands, an ASCII command
/// line in which some alias's command is used gets strictly shorter, and at
/// least one alias is reported as used.
pub proof fn lemma_shorten_strictly(s: Seq<char>, als: Seq<AliasView>, q: int)
    requires
        is_ascii_chars(s),
        all_abbreviate(als),
        0 <= q < als.len(),
        als[q].command_use(s) is Some,
    ensures
        byte_len(shorten_rec(s, als).0) < byte_len(s),
        shorten_rec(s, als).1.len() > 0,
{
    lemma_pick(als, s, false);
    assert(applies(als[q], s, false));
    let p = pick(als, s, false).unwrap();
    let a = als[p];
    assert(abbreviates(a));
    lemma_byte_len_ascii(a.alias);
    lemma_byte_len_ascii(a.command);
    lemma_use_in_halts(a, s);
    let n0 = choose|n: nat| a.settles_after(s, n);
    assert(a.shorten_iter(s, 0) == s);
    assert(n0 > 0);
    lemma_shorten_iter_shift(a, s, (n0 - 1) as nat);
    lemma_shorten_step_bytes(a, s);
    lemma_shorten_iter_bytes(a, a.shorten_step(s), (n0 - 1) as nat);
    let t = a.use_in_result(s);
    assert(byte_len(t) < byte_len(s));
    lemma_shorten_rec(t, als);
}

/// Law: shortening undoes the expansion of an alias used at the start of a
/// command line, when the alias is not global, everything is ASCII, and the
/// command line does not already hold the alias's command.
pub proof fn lemma_expand_then_shorten(a: AliasView, c: Seq<char>)
    requires
        a.scope == AliasScope::Normal,
        is_ascii_chars(c),
        is_ascii_chars(a.alias),
        is_ascii_chars(a.command),
        a.alias_use(c) == Some(0int),
        !contains_seq(c, a.command),
    ensures
        a.use_in_halts(a.expand_once(c)),
        a.use_in_result(a.expand_once(c)) == c,
{
    lemma_substr_index(c, a.alias);
    lemma_byte_len_ascii(a.alias);
    lemma_byte_len_ascii(a.command);
    let m = a.alias.len() as int;
    assert(occurs_at(c, a.alias, 0));
    let rest = skip_chars(c, m);
    assert(c =~= a.alias + rest);
    if a.command.len() == 0 {
        assert(c.subrange(0, 0) =~= a.command);
        assert(occurs_at(c, a.command, 0));
        assert(false);
    }
    let e = a.expand_once(c);
    assert(take_chars(c, 0) =~= Seq::<char>::empty());
    assert(e =~= a.command + rest);
    assert(e.subrange(0, a.command.len() as int) =~= a.command);
    assert(occurs_at(e, a.command, 0));
    assert(substr_index(e, a.command) == Some(0int));
    if m < c.len() {
        assert(e[a.command.len() as int] == c[m]);
    }
    assert(a.command_use(e) == Some(0int));
    assert(skip_chars(e, a.command.len() as int) =~= rest);
    assert(a.shorten_step(e) =~= c);
    lemma_substr_index(c, a.command);
    assert(substr_index(c, a.command) is None);
    assert(a.command_use(c) is None);
    assert(is_ascii_chars(e)) by {
        assert forall|k: int| 0 <= k < e.len() implies '\0' <= #[trigger] e[k] <= '\u{7f}' by {
            if k < a.command.len() {
                assert(e[k] == a.command[k]);
            } else {
                assert(e[k] == c[k - a.command.len() + m]);
            }
        }
    }
    assert(a.shorten_iter(e, 0) == e);
    assert(a.shorten_iter(e, 1) == a.shorten_step(a.shorten_iter(e, 0)));
    assert forall|k: nat| k <= 1 implies !substr_search_panics(
        #[trigger] a.shorten_iter(e, k),
        a.command,
    ) by {
        lemma_ascii_search_safe(e, a.command);
        lemma_ascii_search_safe(c, a.command);
    }
    assert(a.settles_after(e, 1));
    let n0 = choose|n: nat| a.settles_after(e, n);
    assert(n0 >= 1);
    lemma_shorten_iter_stable(a, e, 1, (n0 - 1) as nat);
}

/// Shortening an ASCII command line with aliases that all abbreviate their
/// commands gives an ASCII text.
proof fn lemma_shorten_rec_ascii(s: Seq<char>, als: Seq<AliasView>)
    requires
        is_ascii_chars(s),
        all_abbreviate(als),
    ensures
        is_ascii_chars(shorten_rec(s, als).0),
    decreases byte_len(s),
{
    match pick(als, s, false) {
        None => {},
        Some(p) => {
            lemma_pick(als, s, false);
            let a = als[p];
            assert(abbreviates(a));
            lemma_use_in_halts(a, s);
            let t = a.use_in_result(s);
            if byte_len(t) < byte_len(s) {
                lemma_shorten_rec_ascii(t, als);
            }
        },
    }
}

/// Law: shortening goes on while it can: in the shortened line no alias's
/// command is used any more. This holds of an ASCII line, with ASCII aliases
/// shorter than their commands.
pub proof fn lemma_shorten_complete(s: Seq<char>, als: Seq<AliasView>)
    requires
        is_ascii_chars(s),
        all_abbreviate(als),
    ensures
        forall|i: int|
            0 <= i < als.len() ==> (#[trigger] als[i]).command_use(shorten_rec(s, als).0) is None,
{
    let t = shorten_rec(s, als).0;
    lemma_shorten_rec_ascii(s, als);
    lemma_shorten_ok(s, als);
    lemma_shorten_idempotent(s, als);
    assert forall|i: int| 0 <= i < als.len() implies (#[trigger] als[i]).command_use(t) is None by {
        if als[i].command_use(t) is Some {
            lemma_shorten_strictly(t, als, i);
        }
    }
}

/// Law: shortening an ASCII command line with ASCII aliases shorter than
/// their commands has every chosen alias's replacing known to come to an end.
pub proof fn lemma_shorten_in_reach(s: Seq<char>, als: Seq<AliasView>)
    requires
        is_ascii_chars(s),
        all_abbreviate(als),
    ensures
        shorten_in_reach(s, als),
    decreases byte_len(s),
{
    match pick(als, s, false) {
        None => {},
        Some(p) => {
            lemma_pick(als, s, false);
            let a = als[p];
            assert(abbreviates(a));
            lemma_byte_len_ascii(a.alias);
            lemma_byte_len_ascii(a.command);
            lemma_use_in_halts(a, s);
            let t = a.use_in_result(s);
            if byte_len(t) < byte_len(s) {
                lemma_shorten_in_reach(t, als);
            }
        },
    }
}

/// Aliases shorter than their commands are no longer than them.
pub proof fn lemma_abbreviate_no_longer(als: Seq<AliasView>)
    requires
        all_abbreviate(als),
    ensures
        all_no_longer(als),
{
    assert forall|i: int| 0 <= i < als.len() implies no_longer(#[trigger] als[i]) by {
        assert(abbreviates(als[i]));
    }
}

/// The left side of a declaration line: `alias NAME`, or `alias -g NAME`
/// for a global alias.
pub open spec fn declaration_left(global: bool, name: Seq<char>) -> Seq<char> {
    let word = seq!['a', 'l', 'i', 'a', 's'] + seq![' '];
    if global {
        word + (seq!['-', 'g'] + seq![' '] + name)
    } else {
        word + name
    }
}

/// A name fit for a declaration line: it holds no space and no `=`, and a
/// name declared without `-g` does not itself start with `-`.
pub open spec fn plain_name(global: bool, name: Seq<char>) -> bool {
    &&& forall|k: int| 0 <= k < name.len() ==> name[k] != ' ' && name[k] != '='
    &&& !global ==> (name.len() == 0 || name[0] != '-')
}

/// A declaration line with a plain name declares an alias of that name, of
/// the scope its left side gives, whose command is what follows the first
/// `=` with up to two pairs of surrounding quotes removed.
proof fn lemma_declaration_parts(global: bool, name: Seq<char>, right: Seq<char>)
    requires
        plain_name(global, name),
    ensures
        parse_declaration(declaration_left(global, name) + seq!['='] + right) == Some(
            AliasView {
                scope: if global {
                    AliasScope::Global
                } else {
                    AliasScope::Normal
                },
                alias: name,
                command: unquoted(unquoted(right)),
            },
        ),
        declaration_ok(declaration_left(global, name) + seq!['='] + right),
{
    let x = seq!['a', 'l', 'i', 'a', 's'];
    let g = seq!['-', 'g'];
    let left = declaration_left(global, name);
    let d = left + seq!['='] + right;
    let n = left.len() as int;
    assert forall|k: int| 0 <= k < x.len() implies x[k] != ' ' && x[k] != '=' by {
        if k == 0 {
        } else if k == 1 {
        } else if k == 2 {
        } else if k == 3 {
        } else {
        }
    }
    assert forall|k: int| 0 <= k < g.len() implies g[k] != ' ' && g[k] != '=' by {
        if k == 0 {
        } else {
        }
    }
    assert forall|k: int| 0 <= k < n implies left[k] != '=' by {
        if k < 5 {
            assert(left[k] == x[k]);
        } else if k == 5 {
        } else if global {
            if k < 8 {
                assert(left[k] == g[k - 6]);
            } else if k == 8 {
            } else {
                assert(left[k] == name[k - 9]);
            }
        } else {
            assert(left[k] == name[k - 6]);
        }
    }
    lemma_substr_index(d, seq!['=']);
    assert(d.subrange(n, n + 1) =~= seq!['=']);
    assert(occurs_at(d, seq!['='], n));
    match substr_index(d, seq!['=']) {
        Some(k) => {
            if k < n {
                assert(d.subrange(k, k + 1)[0] == d[k]);
                assert(d[k] == left[k]);
            }
            assert(k == n);
        },
        None => {},
    }
    assert(d.subrange(0, n) =~= left);
    assert(d.subrange(n + 1, d.len() as int) =~= right);
    assert(declaration_sides(d) == Some((left, right)));
    lemma_split_without_sep(name, ' ');
    let pat = "alias -g"@;
    reveal_strlit("alias -g");
    assert(pat =~= seq!['a', 'l', 'i', 'a', 's', ' ', '-', 'g']);
    if global {
        let rest = g + seq![' '] + name;
        lemma_split_at_first(g, ' ', name);
        lemma_split_at_first(x, ' ', rest);
        assert(left =~= x + seq![' '] + rest);
        assert(split_on(left, ' ') =~= seq![x, g, name]);
        assert(left.subrange(0, 8) =~= pat);
        assert(occurs_at(left, pat, 0));
        assert(declares_global(left));
    } else {
        lemma_split_at_first(x, ' ', name);
        assert(left =~= x + seq![' '] + name);
        assert(split_on(left, ' ') =~= seq![x, name]);
        assert(!declares_global(left)) by {
            if contains_seq(left, pat) {
                let i = choose|i: int| occurs_at(left, pat, i);
                assert(left.subrange(i, i + 8)[5] == left[i + 5]);
                assert(left[i + 5] == ' ');
                if i > 0 {
                    assert(left[i + 5] == name[i - 1]);
                }
                assert(left.subrange(i, i + 8)[6] == left[i + 6]);
                assert(left[6] == name[0]);
            }
        }
    }
}

/// Law: a declaration line `alias NAME=QBODYQ`, or `alias -g NAME=QBODYQ`,
/// with `Q` either quote character, declares the alias NAME for BODY, with
/// the quotes removed; the scope is global exactly for `-g`. The body is
/// ASCII, of two characters or more, and does not itself start with a quote;
/// the name is plain (see `plain_name`).
pub proof fn lemma_parse_quoted(global: bool, name: Seq<char>, q: char, body: Seq<char>)
    requires
        plain_name(global, name),
        q == '\'' || q == '"',
        is_ascii_chars(body),
        body.len() >= 2,
        body[0] != '\'' && body[0] != '"',
    ensures
        parse_declaration(declaration_left(global, name) + seq!['='] + (seq![q] + body + seq![q]))
            == Some(
            AliasView {
                scope: if global {
                    AliasScope::Global
                } else {
                    AliasScope::Normal
                },
                alias: name,
                command: body,
            },
        ),
        declaration_ok(declaration_left(global, name) + seq!['='] + (seq![q] + body + seq![q])),
{
    lemma_declaration_parts(global, name, seq![q] + body + seq![q]);
    lemma_unquote_quoted(q, body);
    lemma_byte_len_ascii(body);
    lemma_unquote_unquoted(body);
}

/// Law: a declaration line `alias NAME=BODY`, or `alias -g NAME=BODY`, whose
/// body does not start with a quote, declares the alias NAME for BODY as it
/// stands. The body is ASCII, of two characters or more; the name is plain
/// (see `plain_name`).
pub proof fn lemma_parse_unquoted(global: bool, name: Seq<char>, body: Seq<char>)
    requires
        plain_name(global, name),
        is_ascii_chars(body),
        body.len() >= 2,
        body[0] != '\'' && body[0] != '"',
    ensures
        parse_declaration(declaration_left(global, name) + seq!['='] + body) == Some(
            AliasView {
                scope: if global {
                    AliasScope::Global
                } else {
                    AliasScope::Normal
                },
                alias: name,
                command: body,
            },
        ),
        declaration_ok(declaration_left(global, name) + seq!['='] + body),
{
    lemma_declaration_parts(global, name, body);
    lemma_byte_len_ascii(body);
    lemma_unquote_unquoted(body);
}

/// Law: a line declares an alias exactly when it holds an `=`.
pub proof fn lemma_declares_when_equals(d: Seq<char>)
    ensures
        parse_declaration(d) is Some <==> exists|k: int| 0 <= k < d.len() && d[k] == '=',
{
    lemma_substr_index(d, seq!['=']);
    match substr_index(d, seq!['=']) {
        Some(k) => {
            assert(d.subrange(k, k + 1)[0] == d[k]);
            assert(d[k] == '=');
        },
        None => {
            if exists|k: int| 0 <= k < d.len() && d[k] == '=' {
                let k = choose|k: int| 0 <= k < d.len() && d[k] == '=';
                assert(d.subrange(k, k + 1) =~= seq!['=']);
                assert(occurs_at(d, seq!['='], k));
            }
        },
    }
}

/// Law: parsing a list of declaration lines gives at most one alias per
/// line; when every line declares one, it gives exactly one per line, in
/// the order of the lines.
pub proof fn lemma_parse_all(ds: Seq<Seq<char>>)
    ensures
        parse_all(ds).len() <= ds.len(),
        (forall|i: int| 0 <= i < ds.len() ==> (#[trigger] parse_declaration(ds[i])) is Some) ==> {
            &&& parse_all(ds).len() == ds.len()
            &&& forall|i: int|
                0 <= i < ds.len() ==> #[trigger] parse_all(ds)[i] == parse_declaration(
                    ds[i],
                ).unwrap()
        },
    decreases ds.len(),
{
    if ds.len() > 0 {
        let d = ds.drop_last();
        lemma_parse_all(d);
        if forall|i: int| 0 <= i < ds.len() ==> (#[trigger] parse_declaration(ds[i])) is Some {
            assert forall|i: int| 0 <= i < d.len() implies (#[trigger] parse_declaration(d[i])) is Some by {
                assert(d[i] == ds[i]);
                assert(parse_declaration(ds[i]) is Some);
            }
            let r = parse_all(d);
            assert(parse_declaration(ds[ds.len() - 1]) is Some);
            assert(ds.last() == ds[ds.len() - 1]);
            assert forall|i: int|
                0 <= i < ds.len() implies #[trigger] parse_all(ds)[i] == parse_declaration(
                    ds[i],
                ).unwrap() by {
                if i < d.len() {
                    assert(d[i] == ds[i]);
                    assert(r[i] == parse_declaration(d[i]).unwrap());
                }
            }
        }
    }
}

} // verus!
