//! The value tree a parse produces, and its mathematical model.

use vstd::prelude::*;

verus! {

/// The failure a parse reports. Failures are not recovered internally: the
/// first failure at any level aborts the whole parse and no partial value is
/// handed back.
#[derive(Clone, Copy, Debug, PartialEq, Eq, Structural)]
pub enum ParseError {
    /// The input at the current position matches none of the expected
    /// literals or delimiters.
    UnexpectedToken,
    /// An unknown two-character escape inside a string literal.
    InvalidEscape,
    /// A `\u` escape with fewer than four hexadecimal digits.
    InvalidUnicodeEscape,
    /// A lone high or low surrogate, or a high surrogate not followed by a
    /// low one.
    InvalidSurrogate,
    /// A string literal whose closing quote is never found, or one holding a
    /// raw control character.
    UnterminatedString,
    /// An element list that is not closed or not well separated.
    MalformedArray,
    /// An entry list that is not closed, a missing key or colon, or a
    /// missing value.
    MalformedObject,
    /// The nesting of arrays and objects went past the depth bound.
    NestingTooDeep,
    /// A whole-document parse left unconsumed non-whitespace input.
    TrailingData,
    /// No alternative of the value grammar matches at the current position.
    NoMatchingForm,
}

/// A parsed JSON value.
///
/// A number is kept as the exact literal text that was matched (`Num`);
/// converting it to a machine double is left to the caller, so integers past
/// the double mantissa are not silently rounded by the library itself.
/// A `Str` holds fully decoded text: no `\` escape sequence remains.
/// An `Obj` holds its entries with pairwise distinct keys; on duplicate keys
/// in the input the later occurrence wins.
#[derive(Debug, PartialEq)]
pub enum Jval {
    Null,
    Bool(bool),
    Num(String),
    Str(String),
    List(Vec<Jval>),
    Obj(Vec<(String, Jval)>),
}

/// The mathematical model of a parsed value: text becomes a sequence of
/// characters and an object becomes the mapping its entries denote.
pub enum JsonValue {
    Null,
    Bool(bool),
    Num(Seq<char>),
    Str(Seq<char>),
    List(Seq<JsonValue>),
    Obj(Map<Seq<char>, JsonValue>),
}

/// The mapping an entry sequence denotes: a later entry with the same key
/// wins over an earlier one.
pub open spec fn entries_map(es: Seq<(Seq<char>, JsonValue)>) -> Map<Seq<char>, JsonValue>
    decreases es.len(),
{
    if es.len() == 0 {
        Map::empty()
    } else {
        let rest = entries_map(es.drop_first());
        if rest.dom().contains(es[0].0) {
            rest
        } else {
            rest.insert(es[0].0, es[0].1)
        }
    }
}

/// The models of the values of a sequence, in order.
pub open spec fn seq_view(s: Seq<Jval>) -> Seq<JsonValue>
    decreases s,
{
    if s.len() == 0 {
        Seq::empty()
    } else {
        seq![s[0].model()] + seq_view(s.drop_first())
    }
}

/// The models of the entries of a sequence, in order.
pub open spec fn entries_view(s: Seq<(String, Jval)>) -> Seq<(Seq<char>, JsonValue)>
    decreases s,
    via entries_view_decreases
{
    if s.len() == 0 {
        Seq::empty()
    } else {
        seq![(s[0].0@, s[0].1.model())] + entries_view(s.drop_first())
    }
}

#[via_fn]
proof fn entries_view_decreases(s: Seq<(String, Jval)>) {
    if s.len() > 0 {
        assert(decreases_to!(s => s[0]));
    }
}

impl View for Jval {
    type V = JsonValue;

    open spec fn view(&self) -> JsonValue {
        self.model()
    }
}

impl Jval {
    /// The model of this value.
    pub open spec fn model(self) -> JsonValue
        decreases self,
        via Self::model_decreases
    {
        match self {
            Jval::Null => JsonValue::Null,
            Jval::Bool(b) => JsonValue::Bool(b),
            Jval::Num(t) => JsonValue::Num(t@),
            Jval::Str(t) => JsonValue::Str(t@),
            Jval::List(es) => JsonValue::List(seq_view(es@)),
            Jval::Obj(es) => JsonValue::Obj(entries_map(entries_view(es@))),
        }
    }

    #[via_fn]
    proof fn model_decreases(self) {
        match self {
            Jval::List(es) => {
                assert(decreases_to!(es => es@));
            },
            Jval::Obj(es) => {
                assert(decreases_to!(es => es@));
            },
            _ => {},
        }
    }

    /// Well-formedness of a value tree: the keys of every object are
    /// pairwise distinct.
    pub open spec fn wf(self) -> bool
        decreases self,
        via Self::wf_decreases
    {
        match self {
            Jval::List(es) => seq_wf(es@),
            Jval::Obj(es) => entries_wf(es@) && keys_unique(es@),
            _ => true,
        }
    }

    #[via_fn]
    proof fn wf_decreases(self) {
        match self {
            Jval::List(es) => {
                assert(decreases_to!(es => es@));
            },
            Jval::Obj(es) => {
                assert(decreases_to!(es => es@));
            },
            _ => {},
        }
    }
}

/// Well-formedness of every value of a sequence.
pub open spec fn seq_wf(s: Seq<Jval>) -> bool
    decreases s,
{
    s.len() == 0 || (s[0].wf() && seq_wf(s.drop_first()))
}

/// Well-formedness of every value of an entry sequence.
pub open spec fn entries_wf(s: Seq<(String, Jval)>) -> bool
    decreases s,
    via entries_wf_decreases
{
    s.len() == 0 || (s[0].1.wf() && entries_wf(s.drop_first()))
}

#[via_fn]
proof fn entries_wf_decreases(s: Seq<(String, Jval)>) {
    if s.len() > 0 {
        assert(decreases_to!(s => s[0]));
    }
}

/// Pairwise distinct keys.
pub open spec fn keys_unique(s: Seq<(String, Jval)>) -> bool {
    forall|i: int, j: int| 0 <= i < j < s.len() ==> (#[trigger] s[i]).0@ != (#[trigger] s[j]).0@
}

/// The models of empty sequences, and the empty mapping.
pub proof fn lemma_views_empty()
    ensures
        seq_view(Seq::<Jval>::empty()) == Seq::<JsonValue>::empty(),
        seq_wf(Seq::<Jval>::empty()),
        entries_view(Seq::<(String, Jval)>::empty()) == Seq::<(Seq<char>, JsonValue)>::empty(),
        entries_wf(Seq::<(String, Jval)>::empty()),
        entries_map(Seq::<(Seq<char>, JsonValue)>::empty()) == Map::<Seq<char>, JsonValue>::empty(),
        keys_unique(Seq::<(String, Jval)>::empty()),
{
}

/// The model and well-formedness of a one-value sequence.
pub proof fn lemma_seq_view_singleton(v: Jval)
    ensures
        seq_view(seq![v]) == seq![v.model()],
        seq_wf(seq![v]) == v.wf(),
{
    assert(seq![v].drop_first() =~= Seq::<Jval>::empty());
    assert(seq![v][0] == v);
    assert(seq_view(Seq::<Jval>::empty()) == Seq::<JsonValue>::empty());
    assert(seq_wf(Seq::<Jval>::empty()));
    assert(seq_view(seq![v]) =~= seq![v.model()]);
}

/// The model and well-formedness of a value put in front of a sequence.
pub proof fn lemma_seq_view_cons(v: Jval, es: Seq<Jval>)
    ensures
        seq_view(seq![v] + es) == seq![v.model()] + seq_view(es),
        seq_wf(seq![v] + es) == (v.wf() && seq_wf(es)),
{
    assert((seq![v] + es).drop_first() =~= es);
    assert((seq![v] + es)[0] == v);
    assert(seq_view(seq![v] + es) =~= seq![v.model()] + seq_view(es));
}

/// The model, mapping and well-formedness of a one-entry sequence.
pub proof fn lemma_entries_singleton(key: String, v: Jval)
    ensures
        entries_view(seq![(key, v)]) == seq![(key@, v.model())],
        entries_map(entries_view(seq![(key, v)])) == Map::<Seq<char>, JsonValue>::empty().insert(
            key@,
            v.model(),
        ),
        entries_wf(seq![(key, v)]) == v.wf(),
        keys_unique(seq![(key, v)]),
{
    assert(seq![(key, v)].drop_first() =~= Seq::<(String, Jval)>::empty());
    assert(seq![(key, v)][0] == (key, v));
    assert(entries_view(Seq::<(String, Jval)>::empty()) == Seq::<(Seq<char>, JsonValue)>::empty());
    assert(entries_wf(Seq::<(String, Jval)>::empty()));
    assert(entries_view(seq![(key, v)]) =~= seq![(key@, v.model())]);
    assert(seq![(key@, v.model())].drop_first() =~= Seq::<(Seq<char>, JsonValue)>::empty());
    assert(entries_map(Seq::<(Seq<char>, JsonValue)>::empty()) == Map::<
        Seq<char>,
        JsonValue,
    >::empty());
}

/// The model, mapping and well-formedness of an entry put in front of an
/// entry sequence: the front entry loses to a later entry with the same key.
pub proof fn lemma_entries_cons(key: String, v: Jval, es: Seq<(String, Jval)>)
    ensures
        entries_view(seq![(key, v)] + es) == seq![(key@, v.model())] + entries_view(es),
        entries_map(entries_view(seq![(key, v)] + es)) == (if entries_map(
            entries_view(es),
        ).dom().contains(key@) {
            entries_map(entries_view(es))
        } else {
            entries_map(entries_view(es)).insert(key@, v.model())
        }),
        entries_wf(seq![(key, v)] + es) == (v.wf() && entries_wf(es)),
        (keys_unique(es) && !entries_map(entries_view(es)).dom().contains(key@)) ==> keys_unique(
            seq![(key, v)] + es,
        ),
{
    assert((seq![(key, v)] + es).drop_first() =~= es);
    assert((seq![(key, v)] + es)[0] == (key, v));
    assert(entries_view(seq![(key, v)] + es) =~= seq![(key@, v.model())] + entries_view(es));
    assert((seq![(key@, v.model())] + entries_view(es)).drop_first() =~= entries_view(es));
    lemma_entries_view(es);
    lemma_entries_map_dom(entries_view(es));
    if keys_unique(es) && !entries_map(entries_view(es)).dom().contains(key@) {
        let all = seq![(key, v)] + es;
        assert forall|i: int, j: int| 0 <= i < j < all.len() implies (#[trigger] all[i]).0@ != (
        #[trigger] all[j]).0@ by {
            if i == 0 {
                assert(all[j] == es[j - 1]);
                assert(entries_view(es)[j - 1].0 == es[j - 1].0@);
            } else {
                assert(all[i] == es[i - 1] && all[j] == es[j - 1]);
            }
        }
    }
}

/// The entry models are the models of the entries, index by index.
pub proof fn lemma_entries_view(s: Seq<(String, Jval)>)
    ensures
        entries_view(s).len() == s.len(),
        forall|i: int|
            0 <= i < s.len() ==> entries_view(s)[i] == ((#[trigger] s[i]).0@, s[i].1.model()),
    decreases s.len(),
{
    if s.len() > 0 {
        lemma_entries_view(s.drop_first());
        assert forall|i: int|
            0 <= i < s.len() implies entries_view(s)[i] == ((#[trigger] s[i]).0@,
        s[i].1.model()) by {
            if i > 0 {
                assert(entries_view(s)[i] == entries_view(s.drop_first())[i - 1]);
                assert(s.drop_first()[i - 1] == s[i]);
            }
        }
    }
}

/// A key is in the mapping an entry sequence denotes exactly when some entry
/// carries it.
pub proof fn lemma_entries_map_dom(s: Seq<(Seq<char>, JsonValue)>)
    ensures
        forall|k: Seq<char>|
            #[trigger] entries_map(s).dom().contains(k) <==> exists|i: int|
                0 <= i < s.len() && (#[trigger] s[i]).0 == k,
    decreases s.len(),
{
    if s.len() == 0 {
        assert(forall|k: Seq<char>| !entries_map(s).dom().contains(k));
    } else {
        lemma_entries_map_dom(s.drop_first());
        assert forall|k: Seq<char>| #[trigger]
            entries_map(s).dom().contains(k) implies exists|i: int|
            0 <= i < s.len() && (#[trigger] s[i]).0 == k by {
            if s[0].0 == k {
                assert(0 <= 0 < s.len() && s[0].0 == k);
            } else {
                assert(entries_map(s.drop_first()).dom().contains(k));
                let i = choose|i: int|
                    0 <= i < s.drop_first().len() && (#[trigger] s.drop_first()[i]).0 == k;
                assert(s[i + 1].0 == k);
            }
        }
        assert forall|k: Seq<char>|
            (exists|i: int|
                0 <= i < s.len() && (#[trigger] s[i]).0 == k) implies #[trigger] entries_map(
            s,
        ).dom().contains(k) by {
            let i = choose|i: int| 0 <= i < s.len() && (#[trigger] s[i]).0 == k;
            if i == 0 {
                assert(entries_map(s).dom().contains(s[0].0));
            } else {
                assert(s.drop_first()[i - 1].0 == k);
                assert(entries_map(s.drop_first()).dom().contains(k));
            }
        }
    }
}

} // verus!
