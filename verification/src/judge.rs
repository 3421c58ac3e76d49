//! The server's judgement of a command line: a command that could be typed
//! shorter with the shell's aliases is refused, with advice.
use vstd::prelude::*;
use crate::alias::{
    lengthen_command, lengthen_ok, lengthen_rec, shorten_command, shorten_ok, shorten_in_reach,
    shorten_rec, try_lengthen_command, try_shorten_command, views, Alias, AliasView,
};
use crate::alias::{lemma_pick, pick};
use crate::properties::{
    all_abbreviate, lemma_abbreviate_no_longer, lemma_lengthen_complete, lemma_lengthen_ok,
    lemma_shorten_in_reach, lemma_shorten_ok, lemma_shorten_strictly,
};
use crate::text::{byte_len, byte_len_of, substring};
use vstd::utf8::is_ascii_chars;
use crate::util::strings_view;

verus! {

/// The character of a decimal digit.
pub open spec fn digit_char(d: nat) -> char {
    (48 + d) as char
}

/// The decimal notation of `n`, without leading zeros.
pub open spec fn decimal(n: nat) -> Seq<char>
    decreases n,
{
    if n < 10 {
        seq![digit_char(n)]
    } else {
        decimal(n / 10).push(digit_char(n % 10))
    }
}

/// The number that a text of decimal digits denotes.
pub open spec fn decimal_value(ds: Seq<char>) -> int
    decreases ds.len(),
{
    if ds.len() == 0 {
        0
    } else {
        decimal_value(ds.drop_last()) * 10 + (ds.last() as int - 48)
    }
}

/// Law: `decimal(n)` is a non-empty text of decimal digits that denotes `n`,
/// with no leading zero unless `n` is zero.
pub proof fn lemma_decimal(n: nat)
    ensures
        decimal(n).len() >= 1,
        forall|k: int| 0 <= k < decimal(n).len() ==> '0' <= #[trigger] decimal(n)[k] <= '9',
        decimal_value(decimal(n)) == n,
        decimal(n)[0] == '0' ==> n == 0,
    decreases n,
{
    if n >= 10 {
        lemma_decimal(n / 10);
        let p = decimal(n / 10);
        let r = decimal(n);
        assert(r == p.push(digit_char(n % 10)));
        assert(r.drop_last() =~= p);
        assert forall|k: int| 0 <= k < r.len() implies '0' <= #[trigger] r[k] <= '9' by {
            if k < p.len() {
                assert(r[k] == p[k]);
            }
        }
        assert(r[0] == p[0]);
        assert(n == (n / 10) * 10 + n % 10);
        assert(digit_char((n % 10) as nat) as int == 48 + n % 10);
        assert(r.last() == digit_char((n % 10) as nat));
        assert(decimal_value(r) == decimal_value(p) * 10 + (r.last() as int - 48));
    } else {
        assert(decimal(n) == seq![digit_char(n)]);
        assert(digit_char(n) as int == 48 + n);
        assert(decimal(n).drop_last() =~= Seq::<char>::empty());
        assert(decimal_value(Seq::<char>::empty()) == 0);
        assert(decimal_value(decimal(n)) == n);
    }
}

/// Lines joined into one text, with a newline between each two of them.
pub open spec fn join_lines(ls: Seq<Seq<char>>) -> Seq<char>
    decreases ls.len(),
{
    if ls.len() == 0 {
        Seq::empty()
    } else if ls.len() == 1 {
        ls[0]
    } else {
        join_lines(ls.drop_last()) + seq!['\n'] + ls.last()
    }
}

/// The advice given for a refused command: how many bytes the shortened
/// command line saves, the command line itself, and the aliases that were used.
pub open spec fn advice_lines(command: Seq<char>, shortened: Seq<char>, used: Seq<AliasView>) -> Seq<
    Seq<char>,
> {
    seq![
        Seq::empty(),
        "I'm sorry Dave, I can't let you do that."@,
        Seq::empty(),
        "You could save "@ + decimal((byte_len(command) - byte_len(shortened)) as nat)
            + " keystrokes with:"@,
        "> "@ + shortened,
        Seq::empty(),
        "Relevant aliases:"@,
    ] + used.map_values(|a: AliasView| a.feedback_line())
}

/// The command line expanded with the aliases it uses, and the aliases used.
pub open spec fn expanded(command: Seq<char>, als: Seq<AliasView>) -> (Seq<char>, Seq<AliasView>) {
    lengthen_rec(command, als, als.len())
}

/// The expanded command line shortened again, and the aliases used for that.
pub open spec fn reshortened(command: Seq<char>, als: Seq<AliasView>) -> (Seq<char>, Seq<AliasView>) {
    shorten_rec(expanded(command, als).0, als)
}

/// Judging the command line runs without fault: expanding and shortening do,
/// and the shortened command line is no longer than the command typed (the
/// saving is counted in unsigned bytes).
pub open spec fn check_ok(command: Seq<char>, als: Seq<AliasView>) -> bool {
    &&& lengthen_ok(command, als, als.len())
    &&& shorten_ok(expanded(command, als).0, als)
    &&& byte_len(reshortened(command, als).0) <= byte_len(command)
}

/// The judgement of a command line: it is accepted when expanding it and
/// shortening it again gives as many bytes as were typed; otherwise it is
/// refused, with the advice joined into one text.
pub open spec fn verdict(command: Seq<char>, als: Seq<AliasView>) -> (bool, Seq<char>) {
    let shortened = reshortened(command, als).0;
    if byte_len(shortened) == byte_len(command) {
        (true, Seq::empty())
    } else {
        (
            false,
            join_lines(
                advice_lines(
                    command,
                    shortened,
                    expanded(command, als).1 + reshortened(command, als).1,
                ),
            ),
        )
    }
}

/// The server's answer to a command line.
pub struct CommandCheck {
    pub accepted: bool,
    pub feedback: String,
}

/// The text of a decimal digit.
fn digit_string(d: usize) -> (r: String)
    requires
        d < 10,
    ensures
        r@ == seq![digit_char(d as nat)],
{
    let digits = "0123456789";
    proof {
        reveal_strlit("0123456789");
    }
    let r = substring(digits, d, d + 1);
    assert(digits@[d as int] == digit_char(d as nat));
    assert(r@ =~= seq![digit_char(d as nat)]);
    r
}

/// The decimal notation of `n`.
pub fn decimal_string(n: usize) -> (r: String)
    ensures
        r@ == decimal(n as nat),
    decreases n,
{
    if n < 10 {
        digit_string(n)
    } else {
        let front = decimal_string(n / 10);
        let last = digit_string(n % 10);
        let r = front.concat(last.as_str());
        assert(r@ =~= decimal(n as nat));
        r
    }
}

/// `lines` joined with a newline between each two of them.
pub fn join_with_newlines(lines: &Vec<String>) -> (r: String)
    ensures
        r@ == join_lines(strings_view(lines@)),
{
    let ghost ls = strings_view(lines@);
    let n = lines.len();
    if n == 0 {
        let r = String::new();
        assert(r@ =~= join_lines(ls));
        return r;
    }
    let mut r = lines[0].clone();
    assert(ls.subrange(0, 1) =~= seq![ls[0]]);
    let mut i: usize = 1;
    while i < n
        invariant
            n == lines@.len(),
            ls == strings_view(lines@),
            1 <= i <= n,
            r@ == join_lines(ls.subrange(0, i as int)),
        decreases n - i,
    {
        proof {
            reveal_strlit("\n");
        }
        r = r.concat("\n").concat(lines[i].as_str());
        assert(ls.subrange(0, i + 1).drop_last() =~= ls.subrange(0, i as int));
        assert(r@ =~= join_lines(ls.subrange(0, i + 1)));
        i = i + 1;
    }
    assert(ls.subrange(0, n as int) =~= ls);
    r
}

/// The answer for `command`, once it has been shortened to `shortened` with
/// the aliases `used`.
fn answer(command: &String, shortened: &String, used: &Vec<Alias>) -> (r: CommandCheck)
    requires
        byte_len(shortened@) <= byte_len(command@),
    ensures
        r.accepted == (byte_len(shortened@) == byte_len(command@)),
        r.accepted ==> r.feedback@ == Seq::<char>::empty(),
        !r.accepted ==> r.feedback@ == join_lines(advice_lines(command@, shortened@, views(used@))),
{
    let command_len = byte_len_of(command.as_str());
    let shortened_len = byte_len_of(shortened.as_str());
    if shortened_len != command_len {
        let keystrokes_saved = command_len - shortened_len;
        let mut feedback_lines: Vec<String> = Vec::new();
        feedback_lines.push(String::new());
        feedback_lines.push(String::from_str("I'm sorry Dave, I can't let you do that."));
        feedback_lines.push(String::new());
        feedback_lines.push(
            String::from_str("You could save ").concat(decimal_string(keystrokes_saved).as_str()).concat(
                " keystrokes with:",
            ),
        );
        feedback_lines.push(String::from_str("> ").concat(shortened.as_str()));
        feedback_lines.push(String::new());
        feedback_lines.push(String::from_str("Relevant aliases:"));
        let ghost head = strings_view(feedback_lines@);
        let ghost lines = advice_lines(command@, shortened@, views(used@));
        assert(head =~= lines.subrange(0, 7));
        let n = used.len();
        let mut i: usize = 0;
        while i < n
            invariant
                n == used@.len(),
                lines == advice_lines(command@, shortened@, views(used@)),
                i <= n,
                strings_view(feedback_lines@) == lines.subrange(0, 7 + i),
            decreases n - i,
        {
            let line = used[i].fmt_for_feedback();
            let ghost before = strings_view(feedback_lines@);
            feedback_lines.push(line);
            assert(strings_view(feedback_lines@) =~= before.push(used@[i as int]@.feedback_line()));
            assert(lines[7 + i] == used@[i as int]@.feedback_line());
            assert(strings_view(feedback_lines@) =~= lines.subrange(0, 7 + i + 1));
            i = i + 1;
        }
        assert(lines.subrange(0, 7 + n) =~= lines);
        CommandCheck { accepted: false, feedback: join_with_newlines(&feedback_lines) }
    } else {
        CommandCheck { accepted: true, feedback: String::new() }
    }
}

/// Judges `command` against the shell's `aliases` (see `verdict`): it is
/// expanded with the aliases it uses, shortened again with all of them, and
/// refused if that saves bytes.
pub fn check_command(command: &String, aliases: &Vec<Alias>) -> (r: CommandCheck)
    requires
        check_ok(command@, views(aliases@)),
    ensures
        r.accepted == verdict(command@, views(aliases@)).0,
        r.feedback@ == verdict(command@, views(aliases@)).1,
{
    let mut used_aliases: Vec<Alias> = Vec::new();
    let lengthened = lengthen_command(command, aliases, &mut used_aliases);
    let shortened = shorten_command(&lengthened, aliases, &mut used_aliases);
    let ghost als = views(aliases@);
    assert(views(used_aliases@) =~= expanded(command@, als).1 + reshortened(command@, als).1);
    answer(command, &shortened, &used_aliases)
}

/// Judges `command` as `check_command` does, when that runs without fault
/// and the replacing of every alias chosen while shortening is known to come
/// to an end (see `shorten_in_reach`); gives `None` otherwise.
pub fn try_check_command(command: &String, aliases: &Vec<Alias>) -> (r: Option<CommandCheck>)
    ensures
        r is Some <==> check_ok(command@, views(aliases@)) && shorten_in_reach(
            expanded(command@, views(aliases@)).0,
            views(aliases@),
        ),
        r matches Some(c) ==> c.accepted == verdict(command@, views(aliases@)).0 && c.feedback@
            == verdict(command@, views(aliases@)).1,
{
    let ghost als = views(aliases@);
    let mut used_aliases: Vec<Alias> = Vec::new();
    let lengthened = match try_lengthen_command(command, aliases, &mut used_aliases) {
        None => {
            return None;
        },
        Some(l) => l,
    };
    let shortened = match try_shorten_command(&lengthened, aliases, &mut used_aliases) {
        None => {
            return None;
        },
        Some(t) => t,
    };
    if byte_len_of(shortened.as_str()) > byte_len_of(command.as_str()) {
        return None;
    }
    assert(views(used_aliases@) =~= expanded(command@, als).1 + reshortened(command@, als).1);
    Some(answer(command, &shortened, &used_aliases))
}

/// Law: an ASCII command line that uses none of a shell's aliases, but uses
/// the command of one of them, is refused, when the aliases are ASCII and
/// shorter than their commands; judging it then runs without fault, so
/// `try_check_command` answers.
pub proof fn lemma_long_form_refused(c: Seq<char>, als: Seq<AliasView>, q: int)
    requires
        is_ascii_chars(c),
        all_abbreviate(als),
        0 <= q < als.len(),
        als[q].command_use(c) is Some,
        forall|i: int| 0 <= i < als.len() ==> (#[trigger] als[i]).alias_use(c) is None,
    ensures
        check_ok(c, als),
        shorten_in_reach(expanded(c, als).0, als),
        !verdict(c, als).0,
{
    lemma_pick(als, c, true);
    assert(pick(als, c, true) is None);
    assert(expanded(c, als) == (c, Seq::<AliasView>::empty()));
    lemma_abbreviate_no_longer(als);
    lemma_lengthen_ok(c, als, als.len());
    lemma_shorten_ok(c, als);
    lemma_shorten_in_reach(c, als);
    lemma_shorten_strictly(c, als, q);
}

/// Law: the verdict is taken on the expanded command line. Expanding uses an
/// alias exactly when the typed line uses one; the expanded line uses no alias
/// of the list but those reported used; and it is that line, expanded with a
/// round for every alias, that is shortened again. This holds of an ASCII
/// line, with ASCII aliases shorter than their commands.
pub proof fn lemma_verdict_on_expansion(c: Seq<char>, als: Seq<AliasView>)
    requires
        is_ascii_chars(c),
        all_abbreviate(als),
    ensures
        expanded(c, als).1.len() == 0 <==> forall|i: int|
            0 <= i < als.len() ==> (#[trigger] als[i]).alias_use(c) is None,
        forall|i: int|
            0 <= i < als.len() && (#[trigger] als[i]).alias_use(expanded(c, als).0) is Some
                ==> expanded(c, als).1.contains(als[i]),
        reshortened(c, als) == shorten_rec(lengthen_rec(c, als, als.len()).0, als),
        verdict(c, als).0 <==> byte_len(shorten_rec(lengthen_rec(c, als, als.len()).0, als).0)
            == byte_len(c),
{
    lemma_lengthen_complete(c, als, als.len());
}

} // verus!
