use vstd::prelude::*;

verus! {

/// The character that ends one stored alias record.
pub const RECORD_SEPARATOR: char = '\n';

/// The character that separates an alias's name from its command in a record.
pub const FIELD_SEPARATOR: char = '\t';

/// A named activation shortcut.
#[derive(Debug)]
pub struct Alias {
    pub name: String,
    pub command: String,
}

impl View for Alias {
    type V = (Seq<char>, Seq<char>);

    open spec fn view(&self) -> (Seq<char>, Seq<char>) {
        (self.name@, self.command@)
    }
}

impl Alias {
    /// A copy of this alias, field for field.
    pub fn duplicate(&self) -> (r: Alias)
        ensures
            r@ == self@,
    {
        Alias { name: self.name.clone(), command: self.command.clone() }
    }
}

/// Why an operation on the alias registry was refused.
#[derive(Debug, Clone, Copy, PartialEq, Eq, Structural)]
pub enum AliasError {
    /// An alias of that name already exists.
    DuplicateName,
    /// The name is empty or holds a separator character.
    InvalidName,
    /// The command spans more than one line.
    InvalidCommand,
    /// No alias of that name exists.
    NotFound,
}

/// A name is usable when it is non-empty and holds neither separator.
pub open spec fn valid_name(name: Seq<char>) -> bool {
    &&& name.len() > 0
    &&& !name.contains(RECORD_SEPARATOR)
    &&& !name.contains(FIELD_SEPARATOR)
}

/// A command is usable when it is a single line.
pub open spec fn valid_command(command: Seq<char>) -> bool {
    !command.contains(RECORD_SEPARATOR)
}

/// Lexicographic order on names, comparing characters by code point; a proper
/// prefix comes first.
pub open spec fn name_lt(a: Seq<char>, b: Seq<char>) -> bool
    decreases a.len(),
{
    if a.len() == 0 {
        b.len() > 0
    } else if b.len() == 0 {
        false
    } else if a[0] == b[0] {
        name_lt(a.drop_first(), b.drop_first())
    } else {
        (a[0] as u32) < (b[0] as u32)
    }
}

/// No name comes before itself.
pub proof fn lemma_name_lt_irreflexive(a: Seq<char>)
    ensures
        !name_lt(a, a),
    decreases a.len(),
{
    if a.len() > 0 {
        lemma_name_lt_irreflexive(a.drop_first());
    }
}

/// Two distinct names are ordered one way or the other.
pub proof fn lemma_name_lt_total(a: Seq<char>, b: Seq<char>)
    ensures
        a == b || name_lt(a, b) || name_lt(b, a),
    decreases a.len(),
{
    if a.len() > 0 && b.len() > 0 && a[0] == b[0] {
        lemma_name_lt_total(a.drop_first(), b.drop_first());
        if a.drop_first() == b.drop_first() {
            assert(a =~= seq![a[0]] + a.drop_first());
            assert(b =~= seq![b[0]] + b.drop_first());
        }
    } else if a.len() > 0 && b.len() > 0 {
        vstd::utf8::char_u32_cast(a[0], a[0] as u32);
        vstd::utf8::char_u32_cast(b[0], b[0] as u32);
    } else if a.len() == 0 && b.len() == 0 {
        assert(a =~= b);
    }
}

/// The order on names is transitive.
pub proof fn lemma_name_lt_transitive(a: Seq<char>, b: Seq<char>, c: Seq<char>)
    requires
        name_lt(a, b),
        name_lt(b, c),
    ensures
        name_lt(a, c),
    decreases a.len(),
{
    if a.len() > 0 && b.len() > 0 && c.len() > 0 && a[0] == b[0] && b[0] == c[0] {
        lemma_name_lt_transitive(a.drop_first(), b.drop_first(), c.drop_first());
    }
}

/// Whether `c` occurs in `s`, checked character by character.
pub fn has_char(s: &str, c: char) -> (r: bool)
    ensures
        r == s@.contains(c),
{
    let n = s.unicode_len();
    let mut i: usize = 0;
    while i < n
        invariant
            n == s@.len(),
            i <= n,
            forall|j: int| 0 <= j < i ==> s@[j] != c,
        decreases n - i,
    {
        if s.get_char(i) == c {
            return true;
        }
        i = i + 1;
    }
    false
}

/// Whether `a` comes before `b` in the order of names.
pub fn name_less(a: &str, b: &str) -> (r: bool)
    ensures
        r == name_lt(a@, b@),
{
    let na = a.unicode_len();
    let nb = b.unicode_len();
    let mut i: usize = 0;
    assert(a@.skip(0) =~= a@);
    assert(b@.skip(0) =~= b@);
    while i < na && i < nb
        invariant
            na == a@.len(),
            nb == b@.len(),
            i <= na,
            i <= nb,
            name_lt(a@, b@) == name_lt(a@.skip(i as int), b@.skip(i as int)),
        decreases na - i,
    {
        let ca = a.get_char(i);
        let cb = b.get_char(i);
        if ca != cb {
            return (ca as u32) < (cb as u32);
        }
        assert(a@.skip(i as int).drop_first() =~= a@.skip(i + 1));
        assert(b@.skip(i as int).drop_first() =~= b@.skip(i + 1));
        i = i + 1;
    }
    i < nb
}

/// Whether `name` is usable as an alias name.
pub fn is_valid_name(name: &str) -> (r: bool)
    ensures
        r == valid_name(name@),
{
    name.unicode_len() > 0 && !has_char(name, RECORD_SEPARATOR) && !has_char(name, FIELD_SEPARATOR)
}

/// Whether `command` is usable as an activation command.
pub fn is_valid_command(command: &str) -> (r: bool)
    ensures
        r == valid_command(command@),
{
    !has_char(command, RECORD_SEPARATOR)
}

} // verus!
