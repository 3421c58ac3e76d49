//! The aliases of each shell, by process id, as the server keeps them.
use std::collections::HashMap;
use vstd::prelude::*;
use crate::alias::{
    clone_aliases, declaration_is_ok, declaration_ok, parse_alias_declarations, parse_all, texts,
    views, Alias, AliasView,
};
use crate::request_types::PostDeclarations;
use crate::util::strings_view;

verus! {

/// The aliases declared by each shell, keyed by the shell's process id.
pub struct AliasRegistry {
    shells: HashMap<usize, Vec<Alias>>,
}

impl View for AliasRegistry {
    type V = Map<usize, Seq<AliasView>>;

    closed spec fn view(&self) -> Map<usize, Seq<AliasView>> {
        self.shells@.map_values(|v: Vec<Alias>| views(v@))
    }
}

/// The aliases known for `pid`: none when the shell never sent any.
pub open spec fn aliases_for(m: Map<usize, Seq<AliasView>>, pid: usize) -> Seq<AliasView> {
    if m.contains_key(pid) {
        m[pid]
    } else {
        Seq::empty()
    }
}

impl AliasRegistry {
    /// A registry that knows no shell.
    pub fn new() -> (r: Self)
        ensures
            r@ == Map::<usize, Seq<AliasView>>::empty(),
    {
        let r = AliasRegistry { shells: HashMap::new() };
        assert(r@ =~= Map::<usize, Seq<AliasView>>::empty());
        r
    }

    /// Replaces the aliases of shell `pid`.
    pub fn set_aliases(&mut self, pid: usize, aliases: Vec<Alias>)
        ensures
            final(self)@ == old(self)@.insert(pid, views(aliases@)),
    {
        let ghost old_view = self@;
        self.shells.insert(pid, aliases);
        assert(self@ =~= old_view.insert(pid, views(aliases@)));
    }

    /// The aliases of shell `pid`, if it sent any.
    pub fn aliases_of(&self, pid: usize) -> (r: Option<&Vec<Alias>>)
        ensures
            match r {
                Some(v) => self@.contains_key(pid) && views(v@) == self@[pid],
                None => !self@.contains_key(pid),
            },
    {
        self.shells.get(&pid)
    }

    /// A copy of the aliases of shell `pid`; none when it never sent any.
    pub fn aliases_snapshot(&self, pid: usize) -> (r: Vec<Alias>)
        ensures
            views(r@) == aliases_for(self@, pid),
    {
        match self.aliases_of(pid) {
            Some(v) => clone_aliases(v),
            None => {
                let r: Vec<Alias> = Vec::new();
                assert(views(r@) =~= Seq::<AliasView>::empty());
                r
            },
        }
    }
}

/// The aliases that a shell's declarations give, or `None` when a declaration
/// lacks the name word it needs.
pub fn declared_aliases(post: &PostDeclarations) -> (r: Option<Vec<Alias>>)
    ensures
        r is Some <==> forall|i: int|
            0 <= i < post.declarations@.len() ==> declaration_ok(#[trigger] post.declarations@[i]@),
        r matches Some(v) ==> views(v@) == parse_all(strings_view(post.declarations@)),
{
    let n = post.declarations.len();
    let mut lines: Vec<&str> = Vec::new();
    let mut i: usize = 0;
    while i < n
        invariant
            n == post.declarations@.len(),
            i <= n,
            texts(lines@) == strings_view(post.declarations@).subrange(0, i as int),
            forall|j: int| 0 <= j < i ==> declaration_ok(#[trigger] post.declarations@[j]@),
        decreases n - i,
    {
        let line = post.declarations[i].as_str();
        if !declaration_is_ok(line) {
            return None;
        }
        let ghost before = texts(lines@);
        lines.push(line);
        assert(texts(lines@) =~= before.push(post.declarations@[i as int]@));
        assert(strings_view(post.declarations@).subrange(0, i + 1) =~= before.push(
            post.declarations@[i as int]@,
        ));
        i = i + 1;
    }
    assert(strings_view(post.declarations@).subrange(0, n as int) =~= strings_view(
        post.declarations@,
    ));
    assert forall|j: int| 0 <= j < lines@.len() implies declaration_ok(#[trigger] lines@[j]@) by {
        assert(texts(lines@)[j] == lines@[j]@);
    }
    Some(parse_alias_declarations(lines))
}

/// Law: the latest declarations of a shell replace its earlier ones, and
/// leave the aliases of every other shell as they were.
pub proof fn lemma_latest_declarations_win(
    m: Map<usize, Seq<AliasView>>,
    pid: usize,
    first: Seq<AliasView>,
    second: Seq<AliasView>,
    other: usize,
)
    requires
        other != pid,
    ensures
        aliases_for(m.insert(pid, first).insert(pid, second), pid) == second,
        aliases_for(m.insert(pid, first), other) == aliases_for(m, other),
{
}

} // verus!
