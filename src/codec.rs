use vstd::prelude::*;
use crate::alias::{
    Alias, FIELD_SEPARATOR, RECORD_SEPARATOR, valid_name, valid_command, name_lt, name_less,
    lemma_name_lt_irreflexive, lemma_name_lt_transitive,
};
use crate::outcome::StorageError;
use crate::store::{
    AliasStore, sorted_by_name, well_formed_entries, insertion_point, lemma_position,
};

verus! {

/// One stored alias: its name, a tab, its command, and a newline.
pub open spec fn record(e: (Seq<char>, Seq<char>)) -> Seq<char> {
    e.0 + seq![FIELD_SEPARATOR] + e.1 + seq![RECORD_SEPARATOR]
}

/// The stored form of a sequence of aliases: their records, one after another.
pub open spec fn encode_entries(s: Seq<(Seq<char>, Seq<char>)>) -> Seq<char>
    decreases s.len(),
{
    if s.len() == 0 {
        Seq::empty()
    } else {
        encode_entries(s.drop_last()) + record(s.last())
    }
}

/// The stored form of every alias in `store`, in the store's order.
pub fn encode(store: &AliasStore) -> (r: String)
    requires
        store.wf(),
    ensures
        r@ == encode_entries(store.entries()),
{
    let aliases = store.list();
    let ghost s = store.entries();
    let n = aliases.len();
    let mut r = String::new();
    let mut i: usize = 0;
    proof {
        reveal_strlit("\t");
        reveal_strlit("\n");
        assert(s.take(0) =~= Seq::<(Seq<char>, Seq<char>)>::empty());
    }
    while i < n
        invariant
            n == aliases@.len(),
            aliases@.map_values(|a: Alias| a@) == s,
            i <= n,
            r@ == encode_entries(s.take(i as int)),
            "\t"@ == seq![FIELD_SEPARATOR],
            "\n"@ == seq![RECORD_SEPARATOR],
        decreases n - i,
    {
        assert(s[i as int] == aliases@[i as int]@);
        r.append(aliases[i].name.as_str());
        r.append("\t");
        r.append(aliases[i].command.as_str());
        r.append("\n");
        assert(s.take(i + 1).drop_last() =~= s.take(i as int));
        i = i + 1;
    }
    assert(s.take(n as int) =~= s);
    r
}

/// The stored form of two sequences one after the other is the stored form of
/// the first followed by that of the second.
pub proof fn lemma_encode_concat(a: Seq<(Seq<char>, Seq<char>)>, b: Seq<(Seq<char>, Seq<char>)>)
    ensures
        encode_entries(a + b) == encode_entries(a) + encode_entries(b),
    decreases b.len(),
{
    if b.len() == 0 {
        assert(a + b =~= a);
        assert(encode_entries(a) + encode_entries(b) =~= encode_entries(a));
    } else {
        assert((a + b).drop_last() =~= a + b.drop_last());
        assert((a + b).last() == b.last());
        lemma_encode_concat(a, b.drop_last());
        assert(encode_entries(a) + encode_entries(b.drop_last()) + record(b.last()) =~= encode_entries(
            a,
        ) + (encode_entries(b.drop_last()) + record(b.last())));
    }
}

/// The record of entry `k` follows the records of the entries before it.
proof fn lemma_record_at(s: Seq<(Seq<char>, Seq<char>)>, k: int)
    requires
        0 <= k < s.len(),
    ensures
        encode_entries(s) == encode_entries(s.take(k)) + record(s[k]) + encode_entries(s.skip(k + 1)),
        encode_entries(s.take(k + 1)) == encode_entries(s.take(k)) + record(s[k]),
{
    let a = s.take(k);
    let b = seq![s[k]];
    let c = s.skip(k + 1);
    assert(s =~= a + b + c);
    assert(s.take(k + 1) =~= a + b);
    assert(b.drop_last() =~= Seq::<(Seq<char>, Seq<char>)>::empty());
    assert(encode_entries(b.drop_last()) == Seq::<char>::empty());
    assert(b.last() == s[k]);
    assert(encode_entries(b) =~= record(s[k]));
    lemma_encode_concat(a + b, c);
    lemma_encode_concat(a, b);
}

/// Where the stored form of a well-formed sequence has been read up to the end
/// of entry `k - 1`, the next record is entry `k`, and it ends at the first tab
/// and the first newline that follow.
proof fn lemma_next_record(text: Seq<char>, s: Seq<(Seq<char>, Seq<char>)>, k: int, pos: int)
    requires
        well_formed_entries(s),
        encode_entries(s) == text,
        0 <= k <= s.len(),
        0 <= pos < text.len(),
        encode_entries(s.take(k)) == text.take(pos),
    ensures
        k < s.len(),
        ({
            let tab = pos + s[k].0.len();
            let end = tab + 1 + s[k].1.len();
            &&& end < text.len()
            &&& text[tab] == FIELD_SEPARATOR
            &&& forall|j: int| pos <= j < tab ==> #[trigger] text[j] != FIELD_SEPARATOR && text[j]
                != RECORD_SEPARATOR
            &&& text[end] == RECORD_SEPARATOR
            &&& forall|j: int| tab + 1 <= j < end ==> #[trigger] text[j] != RECORD_SEPARATOR
            &&& text.subrange(pos, tab) == s[k].0
            &&& text.subrange(tab + 1, end) == s[k].1
            &&& encode_entries(s.take(k + 1)) == text.take(end + 1)
        }),
{
    if k == s.len() {
        assert(s.take(k) =~= s);
        assert(false);
    }
    lemma_record_at(s, k);
    let e = s[k];
    let p = encode_entries(s.take(k));
    let r = record(e);
    assert(p.len() == pos);
    let tab = pos + e.0.len();
    let end = tab + 1 + e.1.len();
    assert forall|j: int| 0 <= j < r.len() implies text[pos + j] == #[trigger] r[j] by {
        assert(text == p + r + encode_entries(s.skip(k + 1)));
    }
    assert(valid_name(e.0) && valid_command(e.1));
    assert(r[e.0.len() as int] == FIELD_SEPARATOR);
    assert(r[(e.0.len() + 1 + e.1.len()) as int] == RECORD_SEPARATOR);
    assert forall|j: int| pos <= j < tab implies #[trigger] text[j] != FIELD_SEPARATOR && text[j]
        != RECORD_SEPARATOR by {
        assert(r[j - pos] == e.0[j - pos]);
        assert(text[j] == r[j - pos]);
    }
    assert forall|j: int| tab + 1 <= j < end implies #[trigger] text[j] != RECORD_SEPARATOR by {
        assert(r[j - pos] == e.1[j - tab - 1]);
        assert(text[j] == r[j - pos]);
    }
    assert(text.subrange(pos, tab) =~= e.0) by {
        assert forall|j: int| 0 <= j < e.0.len() implies text.subrange(pos, tab)[j] == e.0[j] by {
            assert(r[j] == e.0[j]);
        }
    }
    assert(text.subrange(tab + 1, end) =~= e.1) by {
        assert forall|j: int| 0 <= j < e.1.len() implies text.subrange(tab + 1, end)[j] == e.1[j] by {
            assert(r[(e.0.len() + 1 + j) as int] == e.1[j]);
            assert(text[pos + e.0.len() + 1 + j] == r[(e.0.len() + 1 + j) as int]);
        }
    }
    assert(text.take(end + 1) =~= p + r) by {
        assert(text == p + r + encode_entries(s.skip(k + 1)));
    }
}

/// Two well-formed sequences with one stored form that agree on their first
/// `k` entries, whose records fill the first `pos` characters, agree throughout.
proof fn lemma_injective_from(
    text: Seq<char>,
    s: Seq<(Seq<char>, Seq<char>)>,
    t: Seq<(Seq<char>, Seq<char>)>,
    k: int,
    pos: int,
)
    requires
        well_formed_entries(s),
        well_formed_entries(t),
        text == encode_entries(s),
        text == encode_entries(t),
        0 <= k <= s.len(),
        k <= t.len(),
        0 <= pos <= text.len(),
        s.take(k) == t.take(k),
        encode_entries(s.take(k)) == text.take(pos),
    ensures
        s == t,
    decreases text.len() - pos,
{
    if pos < text.len() {
        lemma_next_record(text, s, k, pos);
        lemma_next_record(text, t, k, pos);
        let ts = pos + s[k].0.len();
        let tt = pos + t[k].0.len();
        if ts < tt {
            assert(text[ts] == FIELD_SEPARATOR);
        } else if tt < ts {
            assert(text[tt] == FIELD_SEPARATOR);
        }
        let es = ts + 1 + s[k].1.len();
        let et = tt + 1 + t[k].1.len();
        if es < et {
            assert(text[es] == RECORD_SEPARATOR);
        } else if et < es {
            assert(text[et] == RECORD_SEPARATOR);
        }
        assert(s[k] == t[k]);
        assert(s.take(k + 1) =~= t.take(k + 1)) by {
            assert(s.take(k + 1) =~= s.take(k).push(s[k]));
            assert(t.take(k + 1) =~= t.take(k).push(t[k]));
        }
        lemma_injective_from(text, s, t, k + 1, es + 1);
    } else {
        if k < s.len() {
            lemma_record_at(s, k);
        }
        if k < t.len() {
            lemma_record_at(t, k);
        }
        assert(s.take(k) =~= s);
        assert(t.take(k) =~= t);
    }
}

/// No two different well-formed sequences share a stored form, so reading a
/// store back from its stored form gives the same aliases in the same order.
pub proof fn lemma_encoding_injective(s: Seq<(Seq<char>, Seq<char>)>, t: Seq<(Seq<char>, Seq<char>)>)
    requires
        well_formed_entries(s),
        well_formed_entries(t),
        encode_entries(s) == encode_entries(t),
    ensures
        s == t,
{
    let text = encode_entries(s);
    assert(s.take(0) =~= t.take(0));
    assert(text.take(0) =~= encode_entries(s.take(0)));
    lemma_injective_from(text, s, t, 0, 0);
}

/// Storing a well-formed store and reading it back gives the same store: the
/// stored form is accepted, and any store read from it holds the same aliases
/// in the same order.
pub proof fn lemma_round_trip(a: AliasStore, b: AliasStore)
    requires
        a.wf(),
        b.wf(),
        encode_entries(b.entries()) == encode_entries(a.entries()),
    ensures
        is_stored_form(encode_entries(a.entries())),
        b.entries() == a.entries(),
        b@ == a@,
{
    lemma_encoding_injective(a.entries(), b.entries());
}

/// Index of the first `a` or `b` at or after `from`, or the length of `text`
/// where neither occurs.
fn find_either(text: &str, from: usize, a: char, b: char) -> (r: usize)
    requires
        from <= text@.len(),
    ensures
        from <= r <= text@.len(),
        forall|j: int| from <= j < r ==> #[trigger] text@[j] != a && text@[j] != b,
        r < text@.len() ==> text@[r as int] == a || text@[r as int] == b,
{
    let n = text.unicode_len();
    let mut i = from;
    while i < n
        invariant
            n == text@.len(),
            from <= i <= n,
            forall|j: int| from <= j < i ==> #[trigger] text@[j] != a && text@[j] != b,
        decreases n - i,
    {
        let c = text.get_char(i);
        if c == a || c == b {
            return i;
        }
        i = i + 1;
    }
    i
}

/// A name that comes after the last name of a sorted sequence comes after all
/// of them.
proof fn lemma_after_last(s: Seq<(Seq<char>, Seq<char>)>, n: Seq<char>)
    requires
        sorted_by_name(s),
        s.len() > 0 ==> name_lt(s.last().0, n),
    ensures
        insertion_point(s, n) == s.len(),
        forall|j: int| 0 <= j < s.len() ==> name_lt(#[trigger] s[j].0, n),
{
    assert forall|j: int| 0 <= j < s.len() implies name_lt(#[trigger] s[j].0, n) by {
        if j < s.len() - 1 {
            lemma_name_lt_transitive(s[j].0, s.last().0, n);
        }
    }
    lemma_position(s, n, s.len() as int);
}

/// `text` is the stored form of some well-formed sequence of aliases.
pub open spec fn is_stored_form(text: Seq<char>) -> bool {
    exists|s: Seq<(Seq<char>, Seq<char>)>| well_formed_entries(s) && #[trigger] encode_entries(s) == text
}

/// Reads a store back from its stored form. Exactly the stored forms of
/// well-formed sequences are accepted, so records must come in ascending order
/// of name, each with a usable name and command; any other text is refused as
/// an unusable store.
pub fn decode(text: &str) -> (r: Result<AliasStore, StorageError>)
    ensures
        r is Ok <==> is_stored_form(text@),
        match r {
            Ok(store) => store.wf() && encode_entries(store.entries()) == text@,
            Err(e) => e == StorageError::Unavailable,
        },
{
    let ghost cand = is_stored_form(text@);
    let ghost s = choose|s: Seq<(Seq<char>, Seq<char>)>|
        well_formed_entries(s) && #[trigger] encode_entries(s) == text@;
    let n = text.unicode_len();
    let mut store = AliasStore::new();
    let mut prev = String::new();
    let mut pos: usize = 0;
    proof {
        assert(text@.take(0) =~= Seq::<char>::empty());
        if cand {
            assert(s.take(0) =~= store.entries());
        }
    }
    while pos < n
        invariant
            n == text@.len(),
            pos <= n,
            store.wf(),
            encode_entries(store.entries()) == text@.take(pos as int),
            store.entries().len() > 0 ==> prev@ == store.entries().last().0,
            cand == is_stored_form(text@),
            cand ==> well_formed_entries(s) && encode_entries(s) == text@,
            cand ==> store.entries().len() <= s.len() && s.take(store.entries().len() as int)
                == store.entries(),
        decreases n - pos,
    {
        let ghost k = store.entries().len() as int;
        proof {
            if cand {
                lemma_next_record(text@, s, k, pos as int);
            }
        }
        let tab = find_either(text, pos, FIELD_SEPARATOR, RECORD_SEPARATOR);
        proof {
            if cand {
                let t2 = pos + s[k].0.len();
                if tab < t2 {
                    assert(text@[tab as int] != FIELD_SEPARATOR && text@[tab as int] != RECORD_SEPARATOR);
                } else if tab > t2 {
                    assert(text@[t2] == FIELD_SEPARATOR);
                }
                assert(tab == t2);
                assert(text@[tab as int] == FIELD_SEPARATOR);
            }
        }
        if tab == n || text.get_char(tab) != FIELD_SEPARATOR {
            return Err(StorageError::Unavailable);
        }
        let end = find_either(text, tab + 1, RECORD_SEPARATOR, RECORD_SEPARATOR);
        proof {
            if cand {
                let e2 = tab + 1 + s[k].1.len();
                if end < e2 {
                    assert(text@[end as int] != RECORD_SEPARATOR);
                } else if end > e2 {
                    assert(text@[e2] == RECORD_SEPARATOR);
                }
                assert(end == e2);
            }
        }
        if end == n {
            return Err(StorageError::Unavailable);
        }
        let name = text.substring_char(pos, tab);
        let command = text.substring_char(tab + 1, end);
        proof {
            if cand && k > 0 {
                assert(s.take(k)[k - 1] == s[k - 1]);
                assert(name_lt(s[k - 1].0, s[k].0));
            }
        }
        if store.len() > 0 && !name_less(prev.as_str(), name) {
            return Err(StorageError::Unavailable);
        }
        let ghost before = store.entries();
        proof {
            lemma_after_last(before, name@);
            lemma_name_lt_irreflexive(name@);
            if cand {
                assert(valid_name(s[k].0) && valid_command(s[k].1));
                assert(name@ == s[k].0);
                assert(command@ == s[k].1);
                assert(!store@.contains_key(name@));
            }
        }
        match store.create(name, command) {
            Ok(_) => {},
            Err(_) => {
                return Err(StorageError::Unavailable);
            },
        }
        proof {
            assert(before.insert(before.len() as int, (name@, command@)) =~= before.push(
                (name@, command@),
            ));
            assert(store.entries().drop_last() =~= before);
            assert(text@.take(end + 1) =~= text@.take(pos as int) + record((name@, command@)));
            if cand {
                assert(s.take(k + 1) =~= s.take(k).push(s[k]));
            }
        }
        prev = String::from_str(name);
        pos = end + 1;
    }
    proof {
        assert(text@.take(n as int) =~= text@);
    }
    Ok(store)
}

} // verus!
