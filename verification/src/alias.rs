//! Shell aliases: where they apply in a command line, and rewriting a command
//! line with them in either direction.
use vstd::prelude::*;
use crate::text::{
    byte_len, byte_len_of, lemma_byte_len_concat, lemma_byte_len_ge, lemma_byte_len_split,
    skip_chars, skip_string_after, substring, take_chars, take_string,
};
use crate::util::{
    char_index, contains_seq, contains_text, index_of_word, lemma_substr_index, opt_int,
    search_runs_off, split_on,
    split_text, substr_index, substr_search_panics, unquote_string, unquoted, word_index,
};

verus! {

/// Whether an alias applies only at the start of a command line (`Normal`) or
/// anywhere in it (`Global`, declared with `alias -g`).
#[derive(Debug, Clone, Copy, PartialEq, Eq, Structural)]
pub enum AliasScope {
    Normal,
    Global,
}

/// An alias declaration: `alias` stands for `command`.
#[derive(Debug, PartialEq)]
pub struct Alias {
    pub scope: AliasScope,
    pub alias: String,
    pub command: String,
}

/// The mathematical value of an `Alias`.
pub struct AliasView {
    pub scope: AliasScope,
    pub alias: Seq<char>,
    pub command: Seq<char>,
}

impl View for Alias {
    type V = AliasView;

    open spec fn view(&self) -> AliasView {
        AliasView { scope: self.scope, alias: self.alias@, command: self.command@ }
    }
}

impl Clone for Alias {
    fn clone(&self) -> (r: Self)
        ensures
            r@ == self@,
    {
        Alias { scope: self.scope, alias: self.alias.clone(), command: self.command.clone() }
    }
}

/// The values of a list of aliases.
pub open spec fn views(s: Seq<Alias>) -> Seq<AliasView> {
    s.map_values(|a: Alias| a@)
}

/// Where `word` is used in `s` under `scope`: its first occurrence, if that
/// stands as a word, and is at the very start unless the scope is global.
pub open spec fn scoped_use(s: Seq<char>, word: Seq<char>, scope: AliasScope) -> Option<int> {
    match word_index(s, word) {
        Some(i) => if i == 0 || scope == AliasScope::Global {
            Some(i)
        } else {
            None
        },
        None => None,
    }
}

/// `s` with the `width` characters at position `i` replaced by `ins`; when
/// fewer than `width` characters follow `i`, all of them go.
pub open spec fn splice(s: Seq<char>, i: int, width: int, ins: Seq<char>) -> Seq<char> {
    take_chars(s, i) + ins + skip_chars(s, i + width)
}

impl AliasView {
    /// Where the aliased command is used in `s`.
    pub open spec fn command_use(self, s: Seq<char>) -> Option<int> {
        scoped_use(s, self.command, self.scope)
    }

    /// Where the alias itself is used in `s`.
    pub open spec fn alias_use(self, s: Seq<char>) -> Option<int> {
        scoped_use(s, self.alias, self.scope)
    }

    /// The line that shows the alias, its command, and whether it is global.
    pub open spec fn feedback_line(self) -> Seq<char> {
        self.alias + " -> "@ + self.command + (if self.scope == AliasScope::Global {
            " (GLOBAL) "@
        } else {
            Seq::empty()
        })
    }

    /// Bytes saved by typing the alias in place of its command.
    pub open spec fn gain(self) -> int {
        byte_len(self.command) - byte_len(self.alias)
    }

    /// One replacement of the command by the alias, where the command is used.
    /// The width replaced is the byte length of the command.
    pub open spec fn shorten_step(self, s: Seq<char>) -> Seq<char> {
        match self.command_use(s) {
            Some(i) => splice(s, i, byte_len(self.command) as int, self.alias),
            None => s,
        }
    }

    /// One replacement of the alias by its command, where the alias is used.
    /// The width replaced is the byte length of the alias.
    pub open spec fn expand_once(self, s: Seq<char>) -> Seq<char> {
        match self.alias_use(s) {
            Some(i) => splice(s, i, byte_len(self.alias) as int, self.command),
            None => s,
        }
    }

    /// `s` after `n` rounds of `shorten_step`.
    pub open spec fn shorten_iter(self, s: Seq<char>, n: nat) -> Seq<char>
        decreases n,
    {
        if n == 0 {
            s
        } else {
            self.shorten_step(self.shorten_iter(s, (n - 1) as nat))
        }
    }

    /// After `n` rounds the command is no longer used, and no round up to `n`
    /// made the search run off its text.
    pub open spec fn settles_after(self, s: Seq<char>, n: nat) -> bool {
        &&& self.command_use(self.shorten_iter(s, n)) is None
        &&& forall|k: nat|
            k <= n ==> !substr_search_panics(#[trigger] self.shorten_iter(s, k), self.command)
    }

    /// Replacing the command by the alias over and over comes to an end.
    pub open spec fn use_in_halts(self, s: Seq<char>) -> bool {
        exists|n: nat| self.settles_after(s, n)
    }

    /// The text at which replacing the command by the alias comes to an end.
    pub open spec fn use_in_result(self, s: Seq<char>) -> Seq<char> {
        self.shorten_iter(s, choose|n: nat| self.settles_after(s, n))
    }

    /// Replacing the command by the alias comes to an end within `bound` rounds.
    pub open spec fn settles_within(self, s: Seq<char>, bound: nat) -> bool {
        exists|n: nat| n <= bound && self.settles_after(s, n)
    }

    /// Replacing is known to come to an end: the alias has fewer bytes than
    /// its command and the replacing ends; or it has as many bytes and the
    /// replacing ends within `round_bound(s)` rounds.
    pub open spec fn use_in_in_reach(self, s: Seq<char>) -> bool {
        ||| byte_len(self.alias) < byte_len(self.command) && self.use_in_halts(s)
        ||| byte_len(self.alias) == byte_len(self.command) && self.settles_within(s, round_bound(s))
    }
}

/// How many rounds of replacing are run for an alias with as many bytes as
/// its command: one more than the square of the number of characters.
pub open spec fn round_bound(s: Seq<char>) -> nat {
    s.len() * s.len() + 1
}

/// Once the command is no longer used, further rounds change nothing.
pub proof fn lemma_shorten_iter_stable(a: AliasView, s: Seq<char>, k: nat, j: nat)
    requires
        a.command_use(a.shorten_iter(s, k)) is None,
    ensures
        a.shorten_iter(s, k + j) == a.shorten_iter(s, k),
    decreases j,
{
    if j > 0 {
        lemma_shorten_iter_stable(a, s, k, (j - 1) as nat);
        assert(a.shorten_iter(s, k + j) == a.shorten_step(a.shorten_iter(s, (k + j - 1) as nat)));
    }
}

/// A round of replacing by an alias with fewer bytes than its command makes
/// the text shorter in bytes whenever the command is used, whatever characters
/// the text holds.
pub proof fn lemma_shorten_step_bytes(a: AliasView, s: Seq<char>)
    requires
        byte_len(a.alias) < byte_len(a.command),
    ensures
        a.command_use(s) is Some ==> byte_len(a.shorten_step(s)) < byte_len(s),
        a.command_use(s) is None ==> a.shorten_step(s) == s,
{
    if a.command_use(s) is Some {
        let i = a.command_use(s).unwrap();
        lemma_substr_index(s, a.command);
        let m = a.command.len() as int;
        let w = byte_len(a.command) as int;
        lemma_byte_len_ge(a.command);
        let n = s.len() as int;
        let head = s.subrange(0, i);
        let rest = s.subrange(i + m, n);
        lemma_byte_len_split(s, i);
        let back = s.subrange(i, n);
        lemma_byte_len_split(back, m);
        assert(back.subrange(0, m) =~= a.command);
        assert(back.subrange(m, back.len() as int) =~= rest);
        let tail = skip_chars(s, i + w);
        if i + w < n {
            lemma_byte_len_split(rest, w - m);
            assert(rest.subrange(w - m, rest.len() as int) =~= tail);
        } else {
            assert(tail.len() == 0);
            assert(tail =~= Seq::<char>::empty());
        }
        assert(take_chars(s, i) == head);
        lemma_byte_len_concat(head, a.alias);
        lemma_byte_len_concat(head + a.alias, tail);
    }
}

impl Alias {
    /// Where this alias's command is used in `command` (see `scoped_use`).
    pub fn used_by(&self, command: &str) -> (r: Option<usize>)
        requires
            !substr_search_panics(command@, self.command@),
        ensures
            opt_int(r) == self@.command_use(command@),
    {
        let idx_opt = index_of_word(command, self.command.as_str());
        match idx_opt {
            None => None,
            Some(idx) => if idx == 0 || self.scope == AliasScope::Global {
                Some(idx)
            } else {
                None
            },
        }
    }

    /// Where this alias itself is used in `command` (see `scoped_use`).
    pub fn alias_used_by(&self, command: &str) -> (r: Option<usize>)
        requires
            !substr_search_panics(command@, self.alias@),
        ensures
            opt_int(r) == self@.alias_use(command@),
    {
        let idx_opt = index_of_word(command, self.alias.as_str());
        match idx_opt {
            None => None,
            Some(idx) => if idx == 0 || self.scope == AliasScope::Global {
                Some(idx)
            } else {
                None
            },
        }
    }

    /// `command` with the alias put in place of its command, again and again
    /// while the command is still used.
    pub fn use_in(&self, command: &String) -> (r: String)
        requires
            self@.use_in_halts(command@),
        ensures
            r@ == self@.use_in_result(command@),
            self@.command_use(r@) is None,
    {
        let ghost a = self@;
        let ghost orig = command@;
        let ghost n0 = choose|n: nat| a.settles_after(orig, n);
        let mut command: String = command.clone();
        let ghost mut k: nat = 0;
        assert(a.shorten_iter(orig, 0) == orig);
        let mut contained = self.used_by(command.as_str());
        while contained.is_some()
            invariant
                a == self@,
                a.settles_after(orig, n0),
                k <= n0,
                command@ == a.shorten_iter(orig, k),
                opt_int(contained) == a.command_use(command@),
            decreases n0 - k,
        {
            let index = contained.unwrap();
            let width = byte_len_of(self.command.as_str());
            let before = take_string(command.as_str(), index);
            let after = skip_string_after(command.as_str(), index, width);
            command = before.concat(self.alias.as_str()).concat(after.as_str());
            proof {
                k = k + 1;
                assert(command@ == a.shorten_iter(orig, k));
            }
            contained = self.used_by(command.as_str());
        }
        proof {
            lemma_shorten_iter_stable(a, orig, k, (n0 - k) as nat);
        }
        command
    }

    /// `command` with the alias put in place of its command over and over,
    /// as `use_in` does, when that is known to come to an end (see
    /// `AliasView::use_in_in_reach`): the alias has fewer bytes than its
    /// command, so every round shortens the text; or it has as many, and the
    /// command is no longer used within `round_bound(command)` rounds. Gives
    /// `None` otherwise, and when some round's search would run off the text.
    pub fn try_use_in(&self, command: &String) -> (r: Option<String>)
        ensures
            r is Some <==> self@.use_in_in_reach(command@),
            r matches Some(t) ==> t@ == self@.use_in_result(command@),
    {
        let ghost a = self@;
        let ghost orig = command@;
        let alias_bytes = byte_len_of(self.alias.as_str());
        let command_bytes = byte_len_of(self.command.as_str());
        if alias_bytes > command_bytes {
            return None;
        }
        let equal = alias_bytes == command_bytes;
        let orig_bytes = byte_len_of(command.as_str());
        let n = command.as_str().unicode_len() as u128;
        assert(n * n <= 0xffff_ffff_ffff_ffffu128 * 0xffff_ffff_ffff_ffffu128) by (nonlinear_arith)
            requires
                n <= 0xffff_ffff_ffff_ffffu128,
        ;
        let bound: u128 = n * n + 1;
        assert(bound == round_bound(orig));
        let mut rounds: u128 = 0;
        let mut current: String = command.clone();
        assert(a.shorten_iter(orig, 0) == orig);
        loop
            invariant
                a == self@,
                orig == command@,
                byte_len(a.alias) <= byte_len(a.command),
                equal == (byte_len(a.alias) == byte_len(a.command)),
                bound == round_bound(orig),
                orig_bytes == byte_len(orig),
                command_bytes == byte_len(a.command),
                equal ==> rounds <= bound,
                !equal ==> rounds + byte_len(current@) <= byte_len(orig),
                current@ == a.shorten_iter(orig, rounds as nat),
                forall|j: nat|
                    j < rounds ==> a.command_use(#[trigger] a.shorten_iter(orig, j)) is Some
                        && !substr_search_panics(a.shorten_iter(orig, j), a.command),
            decreases (if equal {
                (bound - rounds) as int
            } else {
                byte_len(current@) as int
            }),
        {
            let ghost k = rounds as nat;
            if search_runs_off(current.as_str(), self.command.as_str()) {
                proof {
                    if a.use_in_halts(orig) {
                        let n = choose|n: nat| a.settles_after(orig, n);
                        if n < k {
                            assert(a.command_use(a.shorten_iter(orig, n)) is Some);
                        } else {
                            assert(!substr_search_panics(a.shorten_iter(orig, k), a.command));
                        }
                    }
                }
                return None;
            }
            let contained = self.used_by(current.as_str());
            match contained {
                None => {
                    proof {
                        assert(a.settles_after(orig, k));
                        let n0 = choose|n: nat| a.settles_after(orig, n);
                        if n0 < k {
                            assert(a.command_use(a.shorten_iter(orig, n0)) is Some);
                        } else {
                            lemma_shorten_iter_stable(a, orig, k, (n0 - k) as nat);
                        }
                    }
                    return Some(current);
                },
                Some(index) => {
                    if equal && rounds >= bound {
                        proof {
                            if a.settles_within(orig, round_bound(orig)) {
                                let n = choose|n: nat| n <= round_bound(orig) && a.settles_after(orig, n);
                                if n < k {
                                    assert(a.command_use(a.shorten_iter(orig, n)) is Some);
                                }
                            }
                        }
                        return None;
                    }
                    proof {
                        if !equal {
                            lemma_shorten_step_bytes(a, current@);
                        }
                    }
                    let width = command_bytes;
                    let before = take_string(current.as_str(), index);
                    let after = skip_string_after(current.as_str(), index, width);
                    let ghost prev = current@;
                    current = before.concat(self.alias.as_str()).concat(after.as_str());
                    assert(current@ == a.shorten_step(prev));
                    proof {
                        assert(a.shorten_iter(orig, k + 1) == a.shorten_step(a.shorten_iter(orig, k)));
                        assert forall|j: nat|
                            j < k + 1 implies a.command_use(#[trigger] a.shorten_iter(orig, j)) is Some
                                && !substr_search_panics(a.shorten_iter(orig, j), a.command) by {
                            if j == k {
                                assert(a.shorten_iter(orig, j) == prev);
                            }
                        }
                    }
                    rounds = rounds + 1;
                },
            }
        }
    }

    /// `command` with the command of this alias put in place of the alias,
    /// once, where the alias is used.
    pub fn reverse_use_in(&self, command: &String) -> (r: String)
        requires
            !substr_search_panics(command@, self.alias@),
        ensures
            r@ == self@.expand_once(command@),
    {
        let mut command: String = command.clone();
        let contained = self.alias_used_by(command.as_str());
        if contained.is_some() {
            let index = contained.unwrap();
            let width = byte_len_of(self.alias.as_str());
            let before = take_string(command.as_str(), index);
            let after = skip_string_after(command.as_str(), index, width);
            command = before.concat(self.command.as_str()).concat(after.as_str());
        }
        command
    }

    /// A line that shows the alias, its command, and whether it is global.
    pub fn fmt_for_feedback(&self) -> (r: String)
        ensures
            r@ == self@.feedback_line(),
    {
        let mut formatted = self.alias.clone().concat(" -> ").concat(self.command.as_str());
        if self.scope == AliasScope::Global {
            formatted = formatted.concat(" (GLOBAL) ");
        } else {
            assert(formatted@ =~= formatted@ + Seq::<char>::empty());
        }
        formatted
    }
}

/// The word of `a` that is looked for: the alias when expanding a command
/// line, the command when shortening one.
pub open spec fn searched(a: AliasView, expand: bool) -> Seq<char> {
    if expand {
        a.alias
    } else {
        a.command
    }
}

/// `a` applies to `s`: its alias is used there when expanding, its command
/// when shortening.
pub open spec fn applies(a: AliasView, s: Seq<char>, expand: bool) -> bool {
    if expand {
        a.alias_use(s) is Some
    } else {
        a.command_use(s) is Some
    }
}

/// The position in `als` of the alias chosen for `s`: among those that apply,
/// one with the greatest gain, the last such one when several tie.
pub open spec fn pick(als: Seq<AliasView>, s: Seq<char>, expand: bool) -> Option<int>
    decreases als.len(),
{
    if als.len() == 0 {
        None
    } else {
        let last = als.len() - 1;
        let prev = pick(als.drop_last(), s, expand);
        if applies(als[last], s, expand) {
            match prev {
                None => Some(last),
                Some(p) => if als[last].gain() >= als[p].gain() {
                    Some(last)
                } else {
                    Some(p)
                },
            }
        } else {
            prev
        }
    }
}

/// Choosing an alias for `s` runs without fault: no search runs off the text
/// of `s`, and every alias that applies is no longer than its command (its gain
/// is counted in unsigned bytes).
pub open spec fn scan_safe(als: Seq<AliasView>, s: Seq<char>, expand: bool) -> bool {
    &&& forall|i: int|
        0 <= i < als.len() ==> !substr_search_panics(s, searched(#[trigger] als[i], expand))
    &&& forall|i: int|
        0 <= i < als.len() && applies(#[trigger] als[i], s, expand) ==> byte_len(als[i].alias)
            <= byte_len(als[i].command)
}

/// Law: `pick` chooses an alias that applies, with the greatest gain among
/// those that apply, and the last one among equals; it chooses none exactly
/// when none applies.
pub proof fn lemma_pick(als: Seq<AliasView>, s: Seq<char>, expand: bool)
    ensures
        match pick(als, s, expand) {
            Some(p) => {
                &&& 0 <= p < als.len()
                &&& applies(als[p], s, expand)
                &&& forall|q: int|
                    0 <= q < als.len() && applies(#[trigger] als[q], s, expand) ==> als[q].gain()
                        <= als[p].gain()
                &&& forall|q: int|
                    p < q < als.len() && applies(#[trigger] als[q], s, expand) ==> als[q].gain()
                        < als[p].gain()
            },
            None => forall|q: int| 0 <= q < als.len() ==> !applies(#[trigger] als[q], s, expand),
        },
    decreases als.len(),
{
    if als.len() > 0 {
        let d = als.drop_last();
        let last = als.len() - 1;
        lemma_pick(d, s, expand);
        assert forall|q: int| 0 <= q < d.len() implies #[trigger] d[q] == als[q] by {}
        if applies(als[last], s, expand) {
            match pick(d, s, expand) {
                None => {
                    assert forall|q: int|
                        0 <= q < als.len() && applies(#[trigger] als[q], s, expand) implies q
                        == last by {
                        if q < last {
                            assert(d[q] == als[q]);
                        }
                    }
                },
                Some(p) => {
                    assert(d[p] == als[p]);
                    if als[last].gain() >= als[p].gain() {
                        assert forall|q: int|
                            0 <= q < als.len() && applies(#[trigger] als[q], s, expand) implies als[q].gain()
                            <= als[last].gain() by {
                            if q < last {
                                assert(d[q] == als[q]);
                            }
                        }
                    } else {
                        assert forall|q: int|
                            0 <= q < als.len() && applies(#[trigger] als[q], s, expand) implies als[q].gain()
                            <= als[p].gain() by {
                            if q < last {
                                assert(d[q] == als[q]);
                            }
                        }
                        assert forall|q: int|
                            p < q < als.len() && applies(#[trigger] als[q], s, expand) implies als[q].gain()
                            < als[p].gain() by {
                            if q < last {
                                assert(d[q] == als[q]);
                            }
                        }
                    }
                },
            }
        } else {
            match pick(d, s, expand) {
                None => {
                    assert forall|q: int| 0 <= q < als.len() implies !applies(
                        #[trigger] als[q],
                        s,
                        expand,
                    ) by {
                        if q < last {
                            assert(d[q] == als[q]);
                        }
                    }
                },
                Some(p) => {
                    assert(d[p] == als[p]);
                    assert forall|q: int|
                        0 <= q < als.len() && applies(#[trigger] als[q], s, expand) implies als[q].gain()
                        <= als[p].gain() by {
                        if q < last {
                            assert(d[q] == als[q]);
                        }
                    }
                    assert forall|q: int|
                        p < q < als.len() && applies(#[trigger] als[q], s, expand) implies als[q].gain()
                        < als[p].gain() by {
                        if q < last {
                            assert(d[q] == als[q]);
                        }
                    }
                },
            }
        }
    }
}

/// The position of the first element of `als` equal to `v`.
pub open spec fn first_index(als: Seq<AliasView>, v: AliasView) -> int {
    choose|i: int| 0 <= i < als.len() && als[i] == v && forall|j: int| 0 <= j < i ==> als[j] != v
}

/// Expanding `s` with aliases, each used at most once (`fuel` bounds the
/// rounds; it is the number of aliases). Returns the expanded text and the
/// aliases used, in order. In each round the alias chosen by `pick` replaces
/// its first use; if that made the text longer, the first copy of that alias
/// leaves the list and the next round starts.
pub open spec fn lengthen_rec(s: Seq<char>, als: Seq<AliasView>, fuel: nat) -> (Seq<char>, Seq<AliasView>)
    decreases fuel,
{
    if fuel == 0 {
        (s, Seq::empty())
    } else {
        match pick(als, s, true) {
            None => (s, Seq::empty()),
            Some(p) => {
                let a = als[p];
                let l = a.expand_once(s);
                if byte_len(l) > byte_len(s) {
                    let r = lengthen_rec(l, als.remove(first_index(als, a)), (fuel - 1) as nat);
                    (r.0, seq![a] + r.1)
                } else {
                    (s, Seq::empty())
                }
            },
        }
    }
}

/// Every round of `lengthen_rec` runs without fault (see `scan_safe`).
pub open spec fn lengthen_ok(s: Seq<char>, als: Seq<AliasView>, fuel: nat) -> bool
    decreases fuel,
{
    if fuel == 0 {
        true
    } else {
        &&& scan_safe(als, s, true)
        &&& match pick(als, s, true) {
            None => true,
            Some(p) => {
                let a = als[p];
                let l = a.expand_once(s);
                byte_len(l) > byte_len(s) ==> lengthen_ok(
                    l,
                    als.remove(first_index(als, a)),
                    (fuel - 1) as nat,
                )
            },
        }
    }
}

/// Shortening `s` with aliases: in each round the alias chosen by `pick`
/// replaces its command wherever it is used (`use_in_result`); while that
/// makes the text shorter, the used alias is recorded and another round runs.
/// Returns the shortened text and the aliases used, in order.
pub open spec fn shorten_rec(s: Seq<char>, als: Seq<AliasView>) -> (Seq<char>, Seq<AliasView>)
    decreases byte_len(s),
{
    match pick(als, s, false) {
        None => (s, Seq::empty()),
        Some(p) => {
            let a = als[p];
            let t = a.use_in_result(s);
            if byte_len(t) < byte_len(s) {
                let r = shorten_rec(t, als);
                (r.0, seq![a] + r.1)
            } else {
                (s, Seq::empty())
            }
        },
    }
}

/// Every round of `shorten_rec` runs without fault and its replacing comes to
/// an end.
pub open spec fn shorten_ok(s: Seq<char>, als: Seq<AliasView>) -> bool
    decreases byte_len(s),
{
    &&& scan_safe(als, s, false)
    &&& match pick(als, s, false) {
        None => true,
        Some(p) => {
            let a = als[p];
            &&& a.use_in_halts(s)
            &&& if byte_len(a.use_in_result(s)) < byte_len(s) {
                shorten_ok(a.use_in_result(s), als)
            } else {
                true
            }
        },
    }
}

/// The position in `aliases` of the alias chosen for `command` (see `pick`).
fn best_alias(command: &String, aliases: &Vec<Alias>, expand: bool) -> (r: Option<usize>)
    requires
        scan_safe(views(aliases@), command@, expand),
    ensures
        opt_int(r) == pick(views(aliases@), command@, expand),
{
    let ghost als = views(aliases@);
    let mut best: Option<usize> = None;
    let mut best_gain: usize = 0;
    let n = aliases.len();
    let mut i: usize = 0;
    while i < n
        invariant
            n == aliases@.len(),
            als == views(aliases@),
            scan_safe(als, command@, expand),
            i <= n,
            opt_int(best) == pick(als.subrange(0, i as int), command@, expand),
            best matches Some(b) ==> b < i && best_gain == als[b as int].gain(),
        decreases n - i,
    {
        let a = &aliases[i];
        assert(als[i as int] == a@);
        assert(searched(als[i as int], expand) == searched(a@, expand));
        let hit = if expand {
            a.alias_used_by(command.as_str()).is_some()
        } else {
            a.used_by(command.as_str()).is_some()
        };
        let ghost pre = als.subrange(0, i as int);
        let ghost next = als.subrange(0, i + 1);
        assert(next.drop_last() =~= pre);
        assert(next[i as int] == a@);
        if hit {
            let gain = byte_len_of(a.command.as_str()) - byte_len_of(a.alias.as_str());
            match best {
                None => {
                    best = Some(i);
                    best_gain = gain;
                },
                Some(b) => {
                    assert(next[b as int] == als[b as int]);
                    if gain >= best_gain {
                        best = Some(i);
                        best_gain = gain;
                    }
                },
            }
        }
        i = i + 1;
    }
    assert(als.subrange(0, n as int) =~= als);
    best
}

/// The two aliases have the same value.
fn same_alias(a: &Alias, b: &Alias) -> (r: bool)
    ensures
        r == (a@ == b@),
{
    a.scope == b.scope && a.alias == b.alias && a.command == b.command
}

/// The position of the first alias in `aliases` with the value of `v`.
fn position_of(aliases: &Vec<Alias>, v: &Alias) -> (r: usize)
    requires
        exists|i: int| 0 <= i < aliases@.len() && aliases@[i]@ == v@,
    ensures
        r < aliases@.len(),
        r == first_index(views(aliases@), v@),
{
    let ghost als = views(aliases@);
    let n = aliases.len();
    let mut i: usize = 0;
    while i < n
        invariant
            n == aliases@.len(),
            als == views(aliases@),
            i <= n,
            forall|j: int| 0 <= j < i ==> als[j] != v@,
            exists|k: int| 0 <= k < aliases@.len() && aliases@[k]@ == v@,
        decreases n - i,
    {
        if same_alias(&aliases[i], v) {
            assert(als[i as int] == v@);
            let ghost f = first_index(als, v@);
            assert(0 <= f < als.len() && als[f] == v@ && forall|j: int| 0 <= j < f ==> als[j] != v@);
            assert(f == i);
            return i;
        }
        i = i + 1;
    }
    let ghost k = choose|k: int| 0 <= k < aliases@.len() && aliases@[k]@ == v@;
    assert(als[k] == v@);
    assert(false);
    0
}

/// `aliases` without its element at `idx`.
fn without(aliases: &Vec<Alias>, idx: usize) -> (r: Vec<Alias>)
    requires
        idx < aliases@.len(),
    ensures
        views(r@) == views(aliases@).remove(idx as int),
        r@.len() == aliases@.len() - 1,
{
    let ghost als = views(aliases@);
    let mut r: Vec<Alias> = Vec::new();
    let n = aliases.len();
    let mut i: usize = 0;
    while i < n
        invariant
            n == aliases@.len(),
            als == views(aliases@),
            idx < n,
            i <= n,
            i <= idx ==> views(r@) == als.subrange(0, i as int),
            i > idx ==> views(r@) == als.remove(idx as int).subrange(0, i - 1),
        decreases n - i,
    {
        let ghost before = views(r@);
        if i != idx {
            let c = aliases[i].clone();
            r.push(c);
            assert(views(r@) =~= before.push(als[i as int]));
        }
        i = i + 1;
        if i <= idx {
            assert(views(r@) =~= als.subrange(0, i as int));
        } else {
            assert(views(r@) =~= als.remove(idx as int).subrange(0, i - 1));
        }
    }
    assert(als.remove(idx as int).subrange(0, n - 1) =~= als.remove(idx as int));
    r
}

/// Recording one more alias, then the aliases of the later rounds, is
/// recording the alias followed by those of the later rounds.
proof fn lemma_record_round(before: Seq<AliasView>, a: AliasView, later: Seq<AliasView>)
    ensures
        (before + seq![a]) + later == before + (seq![a] + later),
{
    assert((before + seq![a]) + later =~= before + (seq![a] + later));
}

/// Expands `command` with `aliases`, each used at most once (see
/// `lengthen_rec`); the aliases used are appended to `used_aliases`.
#[verifier::spinoff_prover]
pub fn lengthen_command(command: &String, aliases: &Vec<Alias>, used_aliases: &mut Vec<Alias>) -> (r: String)
    requires
        lengthen_ok(command@, views(aliases@), aliases@.len()),
    ensures
        r@ == lengthen_rec(command@, views(aliases@), aliases@.len()).0,
        views(final(used_aliases)@) == views(old(used_aliases)@) + lengthen_rec(
            command@,
            views(aliases@),
            aliases@.len(),
        ).1,
    decreases aliases@.len(),
{
    let ghost als = views(aliases@);
    if aliases.len() == 0 {
        assert(views(used_aliases@) =~= views(used_aliases@) + Seq::<AliasView>::empty());
        return command.clone();
    }
    let picked = best_alias(command, aliases, true);
    match picked {
        Some(p) => {
            assert(0 <= p < als.len()) by {
                lemma_pick(als, command@, true);
            }
            let alias = &aliases[p];
            assert(als[p as int] == alias@);
            let lengthened = alias.reverse_use_in(command);
            if byte_len_of(lengthened.as_str()) > byte_len_of(command.as_str()) {
                let ghost old_used = views(used_aliases@);
                used_aliases.push(alias.clone());
                assert(views(used_aliases@) =~= old_used + seq![alias@]);
                let alias_idx = position_of(aliases, alias);
                let remaining_aliases = without(aliases, alias_idx);
                let r = lengthen_command(&lengthened, &remaining_aliases, used_aliases);
                proof {
                    lemma_record_round(
                        old_used,
                        alias@,
                        lengthen_rec(lengthened@, views(remaining_aliases@), remaining_aliases@.len()).1,
                    );
                }
                return r;
            }
        },
        None => {},
    }
    assert(views(used_aliases@) =~= views(used_aliases@) + Seq::<AliasView>::empty());
    command.clone()
}

/// Shortens `command` with `aliases` as long as some alias makes it shorter
/// (see `shorten_rec`); the aliases used are appended to `used_aliases`.
#[verifier::spinoff_prover]
pub fn shorten_command(command: &String, aliases: &Vec<Alias>, used_aliases: &mut Vec<Alias>) -> (r: String)
    requires
        shorten_ok(command@, views(aliases@)),
    ensures
        r@ == shorten_rec(command@, views(aliases@)).0,
        views(final(used_aliases)@) == views(old(used_aliases)@) + shorten_rec(
            command@,
            views(aliases@),
        ).1,
    decreases byte_len(command@),
{
    let ghost als = views(aliases@);
    let picked = best_alias(command, aliases, false);
    match picked {
        Some(p) => {
            assert(0 <= p < als.len()) by {
                lemma_pick(als, command@, false);
            }
            let alias = &aliases[p];
            assert(als[p as int] == alias@);
            let shortened = alias.use_in(command);
            if byte_len_of(shortened.as_str()) < byte_len_of(command.as_str()) {
                let ghost old_used = views(used_aliases@);
                used_aliases.push(alias.clone());
                assert(views(used_aliases@) =~= old_used + seq![alias@]);
                let r = shorten_command(&shortened, aliases, used_aliases);
                proof {
                    lemma_record_round(old_used, alias@, shorten_rec(shortened@, als).1);
                }
                return r;
            }
        },
        None => {},
    }
    assert(views(used_aliases@) =~= views(used_aliases@) + Seq::<AliasView>::empty());
    command.clone()
}

/// Whether choosing an alias for `command` runs without fault (see `scan_safe`).
fn scan_is_safe(command: &String, aliases: &Vec<Alias>, expand: bool) -> (r: bool)
    ensures
        r == scan_safe(views(aliases@), command@, expand),
{
    let ghost als = views(aliases@);
    let n = aliases.len();
    let mut i: usize = 0;
    while i < n
        invariant
            n == aliases@.len(),
            als == views(aliases@),
            i <= n,
            forall|j: int|
                0 <= j < i ==> !substr_search_panics(command@, searched(#[trigger] als[j], expand)),
            forall|j: int|
                0 <= j < i && applies(#[trigger] als[j], command@, expand) ==> byte_len(als[j].alias)
                    <= byte_len(als[j].command),
        decreases n - i,
    {
        let a = &aliases[i];
        assert(als[i as int] == a@);
        let word = if expand {
            a.alias.as_str()
        } else {
            a.command.as_str()
        };
        if search_runs_off(command.as_str(), word) {
            assert(!scan_safe(als, command@, expand));
            return false;
        }
        let hit = if expand {
            a.alias_used_by(command.as_str()).is_some()
        } else {
            a.used_by(command.as_str()).is_some()
        };
        if hit && byte_len_of(a.alias.as_str()) > byte_len_of(a.command.as_str()) {
            assert(!scan_safe(als, command@, expand));
            return false;
        }
        i = i + 1;
    }
    true
}

/// A copy of a list of aliases.
pub fn clone_aliases(aliases: &Vec<Alias>) -> (r: Vec<Alias>)
    ensures
        views(r@) == views(aliases@),
{
    let mut r: Vec<Alias> = Vec::new();
    let n = aliases.len();
    let mut i: usize = 0;
    while i < n
        invariant
            n == aliases@.len(),
            i <= n,
            views(r@) == views(aliases@).subrange(0, i as int),
        decreases n - i,
    {
        let ghost before = views(r@);
        r.push(aliases[i].clone());
        assert(views(r@) =~= before.push(aliases@[i as int]@));
        assert(views(aliases@).subrange(0, i + 1) =~= before.push(aliases@[i as int]@));
        i = i + 1;
    }
    assert(views(aliases@).subrange(0, n as int) =~= views(aliases@));
    r
}

/// Expands `command` with `aliases` as `lengthen_command` does, when every
/// round runs without fault; gives `None` otherwise. The aliases used are
/// appended to `used_aliases`.
#[verifier::spinoff_prover]
pub fn try_lengthen_command(command: &String, aliases: &Vec<Alias>, used_aliases: &mut Vec<Alias>) -> (r: Option<String>)
    ensures
        r is Some <==> lengthen_ok(command@, views(aliases@), aliases@.len()),
        r matches Some(t) ==> t@ == lengthen_rec(command@, views(aliases@), aliases@.len()).0
            && views(final(used_aliases)@) == views(old(used_aliases)@) + lengthen_rec(
            command@,
            views(aliases@),
            aliases@.len(),
        ).1,
    decreases aliases@.len(),
{
    let ghost als = views(aliases@);
    if aliases.len() == 0 {
        assert(views(used_aliases@) =~= views(used_aliases@) + Seq::<AliasView>::empty());
        return Some(command.clone());
    }
    if !scan_is_safe(command, aliases, true) {
        return None;
    }
    let picked = best_alias(command, aliases, true);
    match picked {
        Some(p) => {
            assert(0 <= p < als.len()) by {
                lemma_pick(als, command@, true);
            }
            let alias = &aliases[p];
            assert(als[p as int] == alias@);
            let lengthened = alias.reverse_use_in(command);
            if byte_len_of(lengthened.as_str()) > byte_len_of(command.as_str()) {
                let ghost old_used = views(used_aliases@);
                used_aliases.push(alias.clone());
                assert(views(used_aliases@) =~= old_used + seq![alias@]);
                let alias_idx = position_of(aliases, alias);
                let remaining_aliases = without(aliases, alias_idx);
                let r = try_lengthen_command(&lengthened, &remaining_aliases, used_aliases);
                match r {
                    Some(t) => {
                        proof {
                            lemma_record_round(
                        old_used,
                        alias@,
                        lengthen_rec(lengthened@, views(remaining_aliases@), remaining_aliases@.len()).1,
                    );
                        }
                        return Some(t);
                    },
                    None => {
                        return None;
                    },
                }
            }
        },
        None => {},
    }
    assert(views(used_aliases@) =~= views(used_aliases@) + Seq::<AliasView>::empty());
    Some(command.clone())
}

/// For every alias chosen in a round of `shorten_rec`, its replacing is known
/// to come to an end (see `AliasView::use_in_in_reach`).
pub open spec fn shorten_in_reach(s: Seq<char>, als: Seq<AliasView>) -> bool
    decreases byte_len(s),
{
    match pick(als, s, false) {
        None => true,
        Some(p) => {
            let a = als[p];
            &&& a.use_in_in_reach(s)
            &&& if byte_len(a.use_in_result(s)) < byte_len(s) {
                shorten_in_reach(a.use_in_result(s), als)
            } else {
                true
            }
        },
    }
}

/// Shortens `command` with `aliases` as `shorten_command` does, when every
/// round runs without fault and the replacing of every alias chosen is known
/// to come to an end (see `shorten_in_reach`); gives `None` otherwise.
/// The aliases used are appended to `used_aliases`.
#[verifier::spinoff_prover]
pub fn try_shorten_command(command: &String, aliases: &Vec<Alias>, used_aliases: &mut Vec<Alias>) -> (r: Option<String>)
    ensures
        r is Some <==> shorten_ok(command@, views(aliases@)) && shorten_in_reach(
            command@,
            views(aliases@),
        ),
        r matches Some(t) ==> t@ == shorten_rec(command@, views(aliases@)).0 && views(
            final(used_aliases)@,
        ) == views(old(used_aliases)@) + shorten_rec(command@, views(aliases@)).1,
    decreases byte_len(command@),
{
    let ghost als = views(aliases@);
    if !scan_is_safe(command, aliases, false) {
        return None;
    }
    let picked = best_alias(command, aliases, false);
    match picked {
        Some(p) => {
            assert(0 <= p < als.len()) by {
                lemma_pick(als, command@, false);
            }
            let alias = &aliases[p];
            assert(als[p as int] == alias@);
            let shortened = match alias.try_use_in(command) {
                None => {
                    return None;
                },
                Some(t) => t,
            };
            if byte_len_of(shortened.as_str()) < byte_len_of(command.as_str()) {
                let ghost old_used = views(used_aliases@);
                used_aliases.push(alias.clone());
                assert(views(used_aliases@) =~= old_used + seq![alias@]);
                let r = try_shorten_command(&shortened, aliases, used_aliases);
                match r {
                    Some(t) => {
                        proof {
                            lemma_record_round(old_used, alias@, shorten_rec(shortened@, als).1);
                        }
                        return Some(t);
                    },
                    None => {
                        return None;
                    },
                }
            }
        },
        None => {},
    }
    assert(views(used_aliases@) =~= views(used_aliases@) + Seq::<AliasView>::empty());
    Some(command.clone())
}

/// The texts of a list of string slices.
pub open spec fn texts(ds: Seq<&str>) -> Seq<Seq<char>> {
    ds.map_values(|d: &str| d@)
}

/// The part of a declaration before its first `=`, and the part after it.
pub open spec fn declaration_sides(d: Seq<char>) -> Option<(Seq<char>, Seq<char>)> {
    match substr_index(d, seq!['=']) {
        None => None,
        Some(k) => Some((d.subrange(0, k), d.subrange(k + 1, d.len() as int))),
    }
}

/// A left side that holds `alias -g` declares a global alias.
pub open spec fn declares_global(left: Seq<char>) -> bool {
    contains_seq(left, "alias -g"@)
}

/// Which space-separated word of the left side names the alias: the third
/// one for a global alias (`alias -g NAME`), the second one otherwise.
pub open spec fn name_word(left: Seq<char>) -> int {
    if declares_global(left) {
        2
    } else {
        1
    }
}

/// The alias that one line of `alias -L` output declares. A line without `=`
/// declares none. Otherwise the name is taken from the words before the first
/// `=`, and the command is what follows it, with up to two pairs of
/// surrounding quotes removed.
pub open spec fn parse_declaration(d: Seq<char>) -> Option<AliasView> {
    match declaration_sides(d) {
        None => None,
        Some((left, right)) => Some(
            AliasView {
                scope: if declares_global(left) {
                    AliasScope::Global
                } else {
                    AliasScope::Normal
                },
                alias: split_on(left, ' ')[name_word(left)],
                command: unquoted(unquoted(right)),
            },
        ),
    }
}

/// A declaration line has the name word it needs, if it has an `=` at all.
pub open spec fn declaration_ok(d: Seq<char>) -> bool {
    match declaration_sides(d) {
        None => true,
        Some((left, right)) => split_on(left, ' ').len() > name_word(left),
    }
}

/// Whether a declaration line has the name word it needs (see `declaration_ok`).
pub fn declaration_is_ok(declaration: &str) -> (r: bool)
    ensures
        r == declaration_ok(declaration@),
{
    match char_index(declaration, '=') {
        None => true,
        Some(k) => {
            proof {
                lemma_substr_index(declaration@, seq!['=']);
            }
            let left_side = substring(declaration, 0, k);
            let global = contains_text(left_side.as_str(), "alias -g");
            let words = split_text(left_side.as_str(), ' ');
            if global {
                words.len() > 2
            } else {
                words.len() > 1
            }
        },
    }
}

/// The aliases that a list of declaration lines gives, in order; lines that
/// declare nothing are skipped.
pub open spec fn parse_all(ds: Seq<Seq<char>>) -> Seq<AliasView>
    decreases ds.len(),
{
    if ds.len() == 0 {
        Seq::empty()
    } else {
        let r = parse_all(ds.drop_last());
        match parse_declaration(ds.last()) {
            Some(a) => r.push(a),
            None => r,
        }
    }
}

/// Parses alias declarations such as `alias g=git` or `alias -g G='| grep'`
/// (see `parse_all`).
pub fn parse_alias_declarations(alias_declarations: Vec<&str>) -> (r: Vec<Alias>)
    requires
        forall|i: int|
            0 <= i < alias_declarations@.len() ==> declaration_ok(#[trigger] alias_declarations@[i]@),
    ensures
        views(r@) == parse_all(texts(alias_declarations@)),
{
    let ghost ds = texts(alias_declarations@);
    let mut aliases: Vec<Alias> = Vec::new();
    let n = alias_declarations.len();
    let mut i: usize = 0;
    while i < n
        invariant
            n == alias_declarations@.len(),
            ds == texts(alias_declarations@),
            i <= n,
            forall|j: int|
                0 <= j < alias_declarations@.len() ==> declaration_ok(
                    #[trigger] alias_declarations@[j]@,
                ),
            views(aliases@) == parse_all(ds.subrange(0, i as int)),
        decreases n - i,
    {
        let declaration: &str = alias_declarations[i];
        assert(ds[i as int] == declaration@);
        assert(ds.subrange(0, i + 1).drop_last() =~= ds.subrange(0, i as int));
        assert(declaration_ok(declaration@));
        let ghost before = views(aliases@);
        match char_index(declaration, '=') {
            None => {},
            Some(k) => {
                proof {
                    lemma_substr_index(declaration@, seq!['=']);
                }
                let len = declaration.unicode_len();
                let left_side = substring(declaration, 0, k);
                let right_side = substring(declaration, k + 1, len);
                let global = contains_text(left_side.as_str(), "alias -g");
                let words = split_text(left_side.as_str(), ' ');
                let scope;
                let alias;
                if global {
                    scope = AliasScope::Global;
                    alias = words[2].clone();
                } else {
                    scope = AliasScope::Normal;
                    alias = words[1].clone();
                }
                let command: String = unquote_string(&right_side);
                let unquoted_command = unquote_string(&command);
                aliases.push(Alias { scope: scope, alias: alias, command: unquoted_command });
                assert(views(aliases@) =~= before.push(parse_declaration(declaration@).unwrap()));
            },
        }
        i = i + 1;
    }
    assert(ds.subrange(0, n as int) =~= ds);
    aliases
}

} // verus!
