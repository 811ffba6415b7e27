use vstd::prelude::*;
use crate::alias::{
    Alias, AliasError, valid_name, valid_command, name_lt, name_less, is_valid_name,
    is_valid_command, lemma_name_lt_irreflexive, lemma_name_lt_total, lemma_name_lt_transitive,
};

verus! {

/// Names strictly ascend along the sequence, so no name occurs twice.
pub open spec fn sorted_by_name(s: Seq<(Seq<char>, Seq<char>)>) -> bool {
    forall|i: int, j: int| 0 <= i < j < s.len() ==> name_lt(s[i].0, s[j].0)
}

/// Sorted, with a usable name and command in every entry.
pub open spec fn well_formed_entries(s: Seq<(Seq<char>, Seq<char>)>) -> bool {
    &&& sorted_by_name(s)
    &&& forall|i: int| 0 <= i < s.len() ==> valid_name(#[trigger] s[i].0) && valid_command(s[i].1)
}

/// Some entry carries the name `n`.
pub open spec fn has_name(s: Seq<(Seq<char>, Seq<char>)>, n: Seq<char>) -> bool {
    exists|i: int| 0 <= i < s.len() && s[i].0 == n
}

/// The command of an entry named `n`.
pub open spec fn command_of(s: Seq<(Seq<char>, Seq<char>)>, n: Seq<char>) -> Seq<char> {
    s[choose|i: int| 0 <= i < s.len() && s[i].0 == n].1
}

/// The entries read as a map from name to command.
pub open spec fn contents(s: Seq<(Seq<char>, Seq<char>)>) -> Map<Seq<char>, Seq<char>> {
    Map::new(|n: Seq<char>| has_name(s, n), |n: Seq<char>| command_of(s, n))
}

/// The number of leading entries whose names come before `n`: where an entry
/// named `n` stands, or would stand, in a sorted sequence.
pub open spec fn insertion_point(s: Seq<(Seq<char>, Seq<char>)>, n: Seq<char>) -> int
    decreases s.len(),
{
    if s.len() == 0 {
        0
    } else if name_lt(s[0].0, n) {
        1 + insertion_point(s.drop_first(), n)
    } else {
        0
    }
}

/// In a sorted sequence the entry at `i` is the only one with its name.
pub proof fn lemma_command_at(s: Seq<(Seq<char>, Seq<char>)>, i: int)
    requires
        sorted_by_name(s),
        0 <= i < s.len(),
    ensures
        has_name(s, s[i].0),
        command_of(s, s[i].0) == s[i].1,
{
    let j = choose|j: int| 0 <= j < s.len() && s[j].0 == s[i].0;
    lemma_name_lt_irreflexive(s[i].0);
    if j < i {
        assert(name_lt(s[j].0, s[i].0));
    } else if j > i {
        assert(name_lt(s[i].0, s[j].0));
    }
}

/// The first index whose name does not come before `n` locates `n`.
pub proof fn lemma_position(s: Seq<(Seq<char>, Seq<char>)>, n: Seq<char>, p: int)
    requires
        sorted_by_name(s),
        0 <= p <= s.len(),
        forall|j: int| 0 <= j < p ==> name_lt(#[trigger] s[j].0, n),
        p < s.len() ==> !name_lt(s[p].0, n),
    ensures
        insertion_point(s, n) == p,
        has_name(s, n) <==> (p < s.len() && s[p].0 == n),
        p < s.len() && s[p].0 != n ==> name_lt(n, s[p].0),
    decreases p,
{
    if p > 0 {
        let t = s.drop_first();
        assert forall|i: int, j: int| 0 <= i < j < t.len() implies name_lt(t[i].0, t[j].0) by {
            assert(t[i] == s[i + 1] && t[j] == s[j + 1]);
        }
        assert forall|j: int| 0 <= j < p - 1 implies name_lt(#[trigger] t[j].0, n) by {
            assert(t[j] == s[j + 1]);
        }
        lemma_position(t, n, p - 1);
    }
    if p < s.len() {
        lemma_name_lt_total(s[p].0, n);
    }
    if has_name(s, n) {
        let i = choose|i: int| 0 <= i < s.len() && s[i].0 == n;
        lemma_name_lt_irreflexive(n);
        if i > p && p < s.len() && s[p].0 != n {
            lemma_name_lt_transitive(n, s[p].0, s[i].0);
        }
    }
}

/// Putting `(n, c)` into a sorted sequence adds that pair to its contents.
pub proof fn lemma_contents_insert(s: Seq<(Seq<char>, Seq<char>)>, p: int, n: Seq<char>, c: Seq<char>)
    requires
        0 <= p <= s.len(),
        sorted_by_name(s),
        sorted_by_name(s.insert(p, (n, c))),
    ensures
        contents(s.insert(p, (n, c))) == contents(s).insert(n, c),
{
    let t = s.insert(p, (n, c));
    let m = contents(s).insert(n, c);
    assert forall|k: Seq<char>| #[trigger] m.contains_key(k) implies contents(t).contains_key(k)
        && contents(t)[k] == m[k] by {
        if k == n {
            lemma_command_at(t, p);
        } else {
            let j = choose|j: int| 0 <= j < s.len() && s[j].0 == k;
            lemma_command_at(s, j);
            let j2 = if j < p { j } else { j + 1 };
            assert(t[j2] == s[j]);
            lemma_command_at(t, j2);
        }
    }
    assert forall|k: Seq<char>| #[trigger] contents(t).contains_key(k) implies m.contains_key(k) by {
        let i = choose|i: int| 0 <= i < t.len() && t[i].0 == k;
        if i < p {
            assert(s[i] == t[i]);
        } else if i > p {
            assert(s[i - 1] == t[i]);
        }
    }
    assert(contents(t) =~= m);
}

/// Taking the entry at `p` out of a sorted sequence takes its name out of the
/// contents, and the rest stays sorted.
pub proof fn lemma_contents_remove(s: Seq<(Seq<char>, Seq<char>)>, p: int)
    requires
        0 <= p < s.len(),
        sorted_by_name(s),
    ensures
        sorted_by_name(s.remove(p)),
        contents(s.remove(p)) == contents(s).remove(s[p].0),
{
    let t = s.remove(p);
    let m = contents(s).remove(s[p].0);
    assert forall|i: int, j: int| 0 <= i < j < t.len() implies name_lt(t[i].0, t[j].0) by {
        let i2 = if i < p { i } else { i + 1 };
        let j2 = if j < p { j } else { j + 1 };
        assert(t[i] == s[i2] && t[j] == s[j2]);
        assert(name_lt(s[i2].0, s[j2].0));
    }
    assert forall|k: Seq<char>| #[trigger] m.contains_key(k) implies contents(t).contains_key(k)
        && contents(t)[k] == m[k] by {
        let j = choose|j: int| 0 <= j < s.len() && s[j].0 == k;
        lemma_command_at(s, j);
        let j2 = if j < p { j } else { j - 1 };
        assert(t[j2] == s[j]);
        lemma_command_at(t, j2);
    }
    assert forall|k: Seq<char>| #[trigger] contents(t).contains_key(k) implies m.contains_key(k) by {
        let i = choose|i: int| 0 <= i < t.len() && t[i].0 == k;
        let i2 = if i < p { i } else { i + 1 };
        assert(t[i] == s[i2]);
        lemma_command_at(s, i2);
        lemma_name_lt_irreflexive(k);
    }
    assert(contents(t) =~= m);
}


/// Two sorted sequences with the same contents are the same sequence.
pub proof fn lemma_sorted_determined(s: Seq<(Seq<char>, Seq<char>)>, t: Seq<(Seq<char>, Seq<char>)>)
    requires
        sorted_by_name(s),
        sorted_by_name(t),
        contents(s) == contents(t),
    ensures
        s == t,
    decreases s.len(),
{
    if s.len() == 0 {
        if t.len() > 0 {
            lemma_command_at(t, 0);
            assert(contents(t).contains_key(t[0].0));
        }
        assert(s =~= t);
    } else if t.len() == 0 {
        lemma_command_at(s, 0);
        assert(contents(s).contains_key(s[0].0));
    } else {
        lemma_command_at(s, 0);
        lemma_command_at(t, 0);
        assert(contents(s).contains_key(s[0].0));
        assert(contents(t).contains_key(t[0].0));
        let k = choose|k: int| 0 <= k < t.len() && t[k].0 == s[0].0;
        let j = choose|j: int| 0 <= j < s.len() && s[j].0 == t[0].0;
        if k > 0 && j > 0 {
            assert(name_lt(t[0].0, t[k].0));
            assert(name_lt(s[0].0, s[j].0));
            lemma_name_lt_transitive(s[0].0, t[0].0, s[0].0);
            lemma_name_lt_irreflexive(s[0].0);
        }
        assert(s[0].0 == t[0].0);
        assert(contents(s)[s[0].0] == contents(t)[t[0].0]);
        assert(s[0] == t[0]);
        lemma_contents_remove(s, 0);
        lemma_contents_remove(t, 0);
        assert(s.remove(0) =~= s.drop_first());
        assert(t.remove(0) =~= t.drop_first());
        lemma_sorted_determined(s.drop_first(), t.drop_first());
        assert forall|i: int| 0 <= i < s.len() implies s[i] == t[i] by {
            if i > 0 {
                assert(s[i] == s.drop_first()[i - 1]);
                assert(t[i] == t.drop_first()[i - 1]);
            }
        }
        assert(s =~= t);
    }
}

/// The order in which a well-formed store keeps its aliases, and so what
/// `list` returns, depends only on which aliases it holds, not on the order in
/// which they were created.
pub proof fn lemma_order_independent_of_history(a: AliasStore, b: AliasStore)
    requires
        a.wf(),
        b.wf(),
        a@ == b@,
    ensures
        a.entries() == b.entries(),
{
    lemma_sorted_determined(a.entries(), b.entries());
}

/// After a successful `create` of `name` with `command`, `get(name)` finds that
/// same command.
pub proof fn lemma_create_then_get(
    before: AliasStore,
    after: AliasStore,
    name: Seq<char>,
    command: Seq<char>,
)
    requires
        before.wf(),
        valid_name(name),
        valid_command(command),
        !before@.contains_key(name),
        after@ == before@.insert(name, command),
    ensures
        after@.contains_key(name),
        after@[name] == command,
{
}

/// The registry of aliases, kept sorted by name.
#[derive(Debug)]
pub struct AliasStore {
    aliases: Vec<Alias>,
}

impl View for AliasStore {
    type V = Map<Seq<char>, Seq<char>>;

    /// What the store holds, as a map from name to command.
    open spec fn view(&self) -> Map<Seq<char>, Seq<char>> {
        contents(self.entries())
    }
}

impl AliasStore {
    /// The aliases in the order in which the store keeps them.
    pub closed spec fn entries(&self) -> Seq<(Seq<char>, Seq<char>)> {
        self.aliases@.map_values(|a: Alias| a@)
    }

    pub open spec fn wf(&self) -> bool {
        well_formed_entries(self.entries())
    }

    /// A store with no aliases.
    pub fn new() -> (r: AliasStore)
        ensures
            r.wf(),
            r.entries() == Seq::<(Seq<char>, Seq<char>)>::empty(),
            r@ == Map::<Seq<char>, Seq<char>>::empty(),
    {
        let r = AliasStore { aliases: Vec::new() };
        assert(r.entries() =~= Seq::<(Seq<char>, Seq<char>)>::empty());
        assert(r@ =~= Map::<Seq<char>, Seq<char>>::empty());
        r
    }

    /// The number of aliases.
    pub fn len(&self) -> (r: usize)
        ensures
            r == self.entries().len(),
    {
        self.aliases.len()
    }

    /// The first index whose name does not come before `name`.
    fn position(&self, name: &str) -> (p: usize)
        requires
            self.wf(),
        ensures
            p <= self.entries().len(),
            p == insertion_point(self.entries(), name@),
            self@.contains_key(name@) <==> (p < self.entries().len() && self.entries()[p as int].0
                == name@),
            p < self.entries().len() && self.entries()[p as int].0 != name@ ==> name_lt(
                name@,
                self.entries()[p as int].0,
            ),
            forall|j: int| 0 <= j < p ==> name_lt(#[trigger] self.entries()[j].0, name@),
    {
        let n = self.aliases.len();
        let mut i: usize = 0;
        while i < n && name_less(self.aliases[i].name.as_str(), name)
            invariant
                n == self.aliases@.len(),
                i <= n,
                forall|j: int| 0 <= j < i ==> name_lt(#[trigger] self.entries()[j].0, name@),
            decreases n - i,
        {
            i = i + 1;
        }
        proof {
            lemma_position(self.entries(), name@, i as int);
        }
        i
    }

    /// The alias named `name`.
    pub fn get(&self, name: &str) -> (r: Result<Alias, AliasError>)
        requires
            self.wf(),
        ensures
            r is Ok <==> self@.contains_key(name@),
            match r {
                Ok(a) => a@ == (name@, self@[name@]),
                Err(e) => e == AliasError::NotFound,
            },
    {
        let p = self.position(name);
        proof {
            lemma_name_lt_irreflexive(name@);
        }
        if p < self.aliases.len() && !name_less(name, self.aliases[p].name.as_str()) {
            proof {
                lemma_name_lt_total(name@, self.entries()[p as int].0);
                lemma_command_at(self.entries(), p as int);
            }
            Ok(self.aliases[p].duplicate())
        } else {
            Err(AliasError::NotFound)
        }
    }

    /// Adds the alias `name` with `command`, keeping the names sorted.
    pub fn create(&mut self, name: &str, command: &str) -> (r: Result<Alias, AliasError>)
        requires
            old(self).wf(),
        ensures
            final(self).wf(),
            r is Ok <==> (valid_name(name@) && valid_command(command@) && !old(self)@.contains_key(
                name@,
            )),
            match r {
                Ok(a) => {
                    &&& a@ == (name@, command@)
                    &&& final(self).entries() == old(self).entries().insert(
                        insertion_point(old(self).entries(), name@),
                        (name@, command@),
                    )
                    &&& final(self)@ == old(self)@.insert(name@, command@)
                },
                Err(e) => {
                    &&& final(self).entries() == old(self).entries()
                    &&& e == if !valid_name(name@) {
                        AliasError::InvalidName
                    } else if !valid_command(command@) {
                        AliasError::InvalidCommand
                    } else {
                        AliasError::DuplicateName
                    }
                },
            },
    {
        if !is_valid_name(name) {
            return Err(AliasError::InvalidName);
        }
        if !is_valid_command(command) {
            return Err(AliasError::InvalidCommand);
        }
        let p = self.position(name);
        proof {
            lemma_name_lt_irreflexive(name@);
        }
        if p < self.aliases.len() && !name_less(name, self.aliases[p].name.as_str()) {
            proof {
                lemma_name_lt_total(name@, self.entries()[p as int].0);
            }
            return Err(AliasError::DuplicateName);
        }
        let ghost s = self.entries();
        let alias = Alias { name: String::from_str(name), command: String::from_str(command) };
        self.aliases.insert(p, alias);
        proof {
            let t = s.insert(p as int, (name@, command@));
            assert(self.entries() =~= t);
            assert forall|i: int, j: int| 0 <= i < j < t.len() implies name_lt(t[i].0, t[j].0) by {
                if i < p && j > p {
                    assert(t[i] == s[i] && t[j] == s[j - 1]);
                } else if i == p && j > p + 1 {
                    lemma_name_lt_transitive(name@, s[p as int].0, s[j - 1].0);
                } else if i > p {
                    assert(t[i] == s[i - 1] && t[j] == s[j - 1]);
                }
            }
            assert forall|i: int| 0 <= i < t.len() implies valid_name(#[trigger] t[i].0)
                && valid_command(t[i].1) by {
                if i > p {
                    assert(t[i] == s[i - 1]);
                }
            }
            lemma_contents_insert(s, p as int, name@, command@);
        }
        Ok(Alias { name: String::from_str(name), command: String::from_str(command) })
    }

    /// Removes the alias named `name`.
    pub fn delete(&mut self, name: &str) -> (r: Result<(), AliasError>)
        requires
            old(self).wf(),
        ensures
            final(self).wf(),
            r is Ok <==> old(self)@.contains_key(name@),
            match r {
                Ok(_) => {
                    &&& final(self).entries() == old(self).entries().remove(
                        insertion_point(old(self).entries(), name@),
                    )
                    &&& final(self)@ == old(self)@.remove(name@)
                },
                Err(e) => e == AliasError::NotFound && final(self).entries() == old(self).entries(),
            },
    {
        let p = self.position(name);
        proof {
            lemma_name_lt_irreflexive(name@);
        }
        if p < self.aliases.len() && !name_less(name, self.aliases[p].name.as_str()) {
            proof {
                lemma_name_lt_total(name@, self.entries()[p as int].0);
            }
            let ghost s = self.entries();
            self.aliases.remove(p);
            proof {
                assert(self.entries() =~= s.remove(p as int));
                lemma_contents_remove(s, p as int);
                assert forall|i: int| 0 <= i < s.len() - 1 implies valid_name(
                    #[trigger] s.remove(p as int)[i].0,
                ) && valid_command(s.remove(p as int)[i].1) by {
                    if i >= p {
                        assert(s.remove(p as int)[i] == s[i + 1]);
                    }
                }
            }
            Ok(())
        } else {
            Err(AliasError::NotFound)
        }
    }

    /// Every alias, in ascending order of name.
    pub fn list(&self) -> (r: Vec<Alias>)
        requires
            self.wf(),
        ensures
            r@.map_values(|a: Alias| a@) == self.entries(),
            well_formed_entries(r@.map_values(|a: Alias| a@)),
    {
        let mut r: Vec<Alias> = Vec::new();
        let n = self.aliases.len();
        let mut i: usize = 0;
        while i < n
            invariant
                n == self.aliases@.len(),
                i <= n,
                r@.map_values(|a: Alias| a@) =~= self.entries().take(i as int),
            decreases n - i,
        {
            r.push(self.aliases[i].duplicate());
            assert(self.entries().take(i + 1) =~= self.entries().take(i as int).push(
                self.entries()[i as int],
            ));
            i = i + 1;
        }
        assert(self.entries().take(n as int) =~= self.entries());
        r
    }
}

} // verus!
