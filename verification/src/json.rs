//! The typed value tree for decoded structured-text documents, with
//! type-checked field extraction and a closed error taxonomy.

use crate::types::hex_digit;
use crate::types::hex_digit_char;
use crate::types::push_char;
use vstd::prelude::*;

verus! {

// ---------------------------------------------------------------------------
// Key ordering
// ---------------------------------------------------------------------------

/// Lexicographic order on key text, by code point.
pub open spec fn str_lt(a: Seq<char>, b: Seq<char>) -> bool
    decreases a.len(),
{
    if b.len() == 0 {
        false
    } else if a.len() == 0 {
        true
    } else if a[0] < b[0] {
        true
    } else if b[0] < a[0] {
        false
    } else {
        str_lt(a.drop_first(), b.drop_first())
    }
}

proof fn lemma_heads_tails_equal(a: Seq<char>, b: Seq<char>)
    requires
        a.len() == b.len(),
        a.len() > 0,
        a[0] == b[0],
        a.drop_first() == b.drop_first(),
    ensures
        a == b,
{
    assert(a =~= b) by {
        assert forall|i: int| 0 <= i < a.len() implies a[i] == b[i] by {
            if i > 0 {
                assert(a[i] == a.drop_first()[i - 1]);
                assert(b[i] == b.drop_first()[i - 1]);
            }
        }
    }
}

proof fn lemma_str_lt_connected(a: Seq<char>, b: Seq<char>)
    ensures
        a != b ==> str_lt(a, b) || str_lt(b, a),
    decreases a.len(),
{
    if a.len() == 0 && b.len() == 0 {
        assert(a =~= b);
    } else if a.len() == 0 {
        assert(str_lt(a, b));
    } else if b.len() == 0 {
        assert(str_lt(b, a));
    } else if a[0] < b[0] {
        assert(str_lt(a, b));
    } else if b[0] < a[0] {
        assert(str_lt(b, a));
    } else {
        assert(a[0] == b[0]);
        lemma_str_lt_connected(a.drop_first(), b.drop_first());
        if a.drop_first() == b.drop_first() {
            assert(a.drop_first().len() == a.len() - 1);
            assert(b.drop_first().len() == b.len() - 1);
            lemma_heads_tails_equal(a, b);
        } else {
            assert(str_lt(a, b) || str_lt(b, a));
        }
    }
}

proof fn lemma_str_lt_asymm(a: Seq<char>, b: Seq<char>)
    ensures
        str_lt(a, b) ==> !str_lt(b, a) && a != b,
    decreases a.len(),
{
    if str_lt(a, b) {
        if a.len() == 0 {
            assert(!str_lt(b, a));
            assert(a != b);
        } else if a[0] < b[0] {
            assert(!str_lt(b, a));
            assert(a[0] != b[0]);
            assert(a != b);
        } else {
            assert(a[0] == b[0]);
            lemma_str_lt_asymm(a.drop_first(), b.drop_first());
            assert(!str_lt(b, a));
            assert(a != b);
        }
    }
}

proof fn lemma_str_lt_trans(a: Seq<char>, b: Seq<char>, c: Seq<char>)
    ensures
        str_lt(a, b) && str_lt(b, c) ==> str_lt(a, c),
    decreases a.len(),
{
    if str_lt(a, b) && str_lt(b, c) {
        if a.len() != 0 && b.len() != 0 && c.len() != 0 {
            lemma_str_lt_trans(a.drop_first(), b.drop_first(), c.drop_first());
        }
    }
}

enum KeyCmp {
    Less,
    Equal,
    Greater,
}

fn str_compare(a: &str, b: &str) -> (r: KeyCmp)
    ensures
        match r {
            KeyCmp::Less => str_lt(a@, b@),
            KeyCmp::Equal => a@ == b@,
            KeyCmp::Greater => str_lt(b@, a@),
        },
{
    let la = a.unicode_len();
    let lb = b.unicode_len();
    proof {
        assert(a@.skip(0) =~= a@);
        assert(b@.skip(0) =~= b@);
        assert(a@.take(0) =~= b@.take(0));
    }
    let mut i: usize = 0;
    while i < la && i < lb
        invariant
            i <= la,
            i <= lb,
            la == a@.len(),
            lb == b@.len(),
            str_lt(a@, b@) == str_lt(a@.skip(i as int), b@.skip(i as int)),
            str_lt(b@, a@) == str_lt(b@.skip(i as int), a@.skip(i as int)),
            a@.take(i as int) == b@.take(i as int),
        decreases la - i,
    {
        let ca = a.get_char(i);
        let cb = b.get_char(i);
        proof {
            assert(a@.skip(i as int)[0] == a@[i as int]);
            assert(b@.skip(i as int)[0] == b@[i as int]);
        }
        if ca < cb {
            return KeyCmp::Less;
        } else if cb < ca {
            return KeyCmp::Greater;
        }
        proof {
            assert(a@.skip(i as int).drop_first() =~= a@.skip(i + 1));
            assert(b@.skip(i as int).drop_first() =~= b@.skip(i + 1));
            assert(a@.take(i + 1) =~= b@.take(i + 1));
        }
        i = i + 1;
    }
    proof {
        assert(a@.skip(i as int).len() == a@.len() - i);
        assert(b@.skip(i as int).len() == b@.len() - i);
    }
    if i < lb {
        KeyCmp::Less
    } else if i < la {
        KeyCmp::Greater
    } else {
        proof {
            assert(a@ =~= b@) by {
                assert(forall|j: int|
                    0 <= j < i ==> a@[j] == a@.take(i as int)[j] && b@[j] == b@.take(
                        i as int,
                    )[j]);
            }
        }
        KeyCmp::Equal
    }
}

// ---------------------------------------------------------------------------
// Mapping entries
// ---------------------------------------------------------------------------

/// The value stored under a key: the first entry whose key matches.
pub open spec fn spec_lookup(es: Seq<(String, JsonValue)>, key: Seq<char>) -> Option<JsonValue>
    decreases es.len(),
{
    if es.len() == 0 {
        Option::None
    } else if es[0].0@ == key {
        Option::Some(es[0].1)
    } else {
        spec_lookup(es.drop_first(), key)
    }
}

/// Entries stand in strictly increasing key order, so keys are unique.
pub open spec fn entries_sorted(es: Seq<(String, JsonValue)>) -> bool {
    forall|i: int, j: int| 0 <= i < j < es.len() ==> str_lt(#[trigger] es[i].0@, #[trigger] es[j].0@)
}

proof fn lemma_lookup_found(es: Seq<(String, JsonValue)>, q: Seq<char>, i: int)
    requires
        0 <= i < es.len(),
        es[i].0@ == q,
        forall|j: int| 0 <= j < i ==> (#[trigger] es[j].0@) != q,
    ensures
        spec_lookup(es, q) == Option::Some(es[i].1),
    decreases i,
{
    if i > 0 {
        assert(es.drop_first()[i - 1] == es[i]);
        assert forall|j: int| 0 <= j < i - 1 implies (#[trigger] es.drop_first()[j].0@) != q by {
            assert(es.drop_first()[j] == es[j + 1]);
        }
        lemma_lookup_found(es.drop_first(), q, i - 1);
    }
}

proof fn lemma_lookup_absent(es: Seq<(String, JsonValue)>, q: Seq<char>)
    requires
        forall|j: int| 0 <= j < es.len() ==> (#[trigger] es[j].0@) != q,
    ensures
        spec_lookup(es, q) is None,
    decreases es.len(),
{
    if es.len() > 0 {
        assert forall|j: int| 0 <= j < es.drop_first().len() implies (#[trigger] es.drop_first()[j].0@)
            != q by {
            assert(es.drop_first()[j] == es[j + 1]);
        }
        lemma_lookup_absent(es.drop_first(), q);
    }
}

proof fn lemma_lookup_some_index(es: Seq<(String, JsonValue)>, q: Seq<char>)
    requires
        spec_lookup(es, q) is Some,
    ensures
        exists|i: int|
            0 <= i < es.len() && (#[trigger] es[i].0@) == q && es[i].1 == spec_lookup(
                es,
                q,
            )->Some_0,
    decreases es.len(),
{
    if es.len() > 0 && es[0].0@ != q {
        lemma_lookup_some_index(es.drop_first(), q);
        let i = choose|i: int|
            0 <= i < es.drop_first().len() && (#[trigger] es.drop_first()[i].0@) == q
                && es.drop_first()[i].1 == spec_lookup(es.drop_first(), q)->Some_0;
        assert(es[i + 1].0@ == q && es[i + 1].1 == spec_lookup(es, q)->Some_0);
    }
}

/// A decoded document value.
#[derive(Debug, PartialEq, Eq)]
pub enum JsonValue {
    Null,
    /// A floating-point number, carried as its canonical decimal rendering.
    /// The tree never interprets the text; extraction treats the variant
    /// as "a number that is not an integer".
    Float(String),
    I64(i64),
    U64(u64),
    Bool(bool),
    Text(String),
    Array(Vec<JsonValue>),
    Object(Vec<(String, JsonValue)>),
}

// ---------------------------------------------------------------------------
// Builder types driven by the grammar scanner
// ---------------------------------------------------------------------------

/// A sequence value under construction.
pub struct JsonArray(pub Vec<JsonValue>);

/// A mapping value under construction; entries are kept in strictly
/// increasing key order, a later insert of an existing key replacing
/// the earlier value.
pub struct JsonObject(pub Vec<(String, JsonValue)>);

impl JsonArray {
    pub fn new() -> (r: Self)
        ensures
            r.0@ =~= Seq::<JsonValue>::empty(),
    {
        JsonArray(Vec::new())
    }

    pub fn push(&mut self, v: JsonValue)
        ensures
            final(self).0@ == old(self).0@.push(v),
    {
        self.0.push(v);
    }
}

impl JsonObject {
    pub fn new() -> (r: Self)
        ensures
            r.0@ =~= Seq::<(String, JsonValue)>::empty(),
            entries_sorted(r.0@),
    {
        JsonObject(Vec::new())
    }

    /// Stores a value under a key, replacing any earlier value of the
    /// key and keeping the entries sorted.
    pub fn insert(&mut self, k: String, v: JsonValue)
        requires
            entries_sorted(old(self).0@),
        ensures
            entries_sorted(final(self).0@),
            spec_lookup(final(self).0@, k@) == Option::Some(v),
            forall|q: Seq<char>|
                q != k@ ==> #[trigger] spec_lookup(final(self).0@, q) == spec_lookup(
                    old(self).0@,
                    q,
                ),
    {
        let ghost es0 = self.0@;
        let mut i: usize = 0;
        let mut found_equal = false;
        let mut found_greater = false;
        while i < self.0.len() && !found_equal && !found_greater
            invariant
                self.0@ == es0,
                entries_sorted(es0),
                i <= es0.len(),
                forall|j: int| 0 <= j < i ==> str_lt(#[trigger] es0[j].0@, k@),
                found_equal ==> i < es0.len() && es0[i as int].0@ == k@,
                found_greater ==> i < es0.len() && str_lt(k@, es0[i as int].0@),
            decreases es0.len() - i + (if found_equal || found_greater { 0int } else { 1int }),
        {
            match str_compare(self.0[i].0.as_str(), k.as_str()) {
                KeyCmp::Less => {
                    i = i + 1;
                },
                KeyCmp::Equal => {
                    found_equal = true;
                },
                KeyCmp::Greater => {
                    found_greater = true;
                },
            }
        }
        proof {
            assert forall|j: int| 0 <= j < i implies (#[trigger] es0[j].0@) != k@ by {
                lemma_str_lt_asymm(es0[j].0@, k@);
            }
        }
        if found_equal {
            let ghost iv = i as int;
            self.0[i] = (k, v);
            proof {
                let es1 = self.0@;
                assert(es1 == es0.update(iv, (k, v)));
                assert(es0[iv].0@ == k@);
                assert(es1[iv] == (k, v));
                assert(forall|m: int| 0 <= m < es1.len() && m != iv ==> es1[m] == es0[m]);
                assert forall|p: int, q: int| 0 <= p < q < es1.len() implies str_lt(
                    #[trigger] es1[p].0@,
                    #[trigger] es1[q].0@,
                ) by {
                    assert(str_lt(es0[p].0@, es0[q].0@));
                    assert(es1[p].0@ == es0[p].0@);
                    assert(es1[q].0@ == es0[q].0@);
                }
                assert forall|j: int| 0 <= j < iv implies (#[trigger] es1[j].0@) != k@ by {
                    assert(es1[j] == es0[j]);
                    lemma_str_lt_asymm(es0[j].0@, k@);
                }
                lemma_lookup_found(es1, k@, iv);
                assert forall|q: Seq<char>| q != k@ implies #[trigger] spec_lookup(es1, q)
                    == spec_lookup(es0, q) by {
                    assert forall|m: int|
                        0 <= m < es0.len() && (#[trigger] es0[m].0@) == q implies exists|j: int|
                        0 <= j < es1.len() && (#[trigger] es1[j].0@) == q && es1[j].1 == es0[m].1
                        by {
                        assert(m != iv);
                        assert(es1[m] == es0[m]);
                        assert(0 <= m < es1.len() && es1[m].0@ == q && es1[m].1 == es0[m].1);
                    }
                    assert forall|m: int|
                        0 <= m < es1.len() && (#[trigger] es1[m].0@) == q implies exists|j: int|
                        0 <= j < es0.len() && (#[trigger] es0[j].0@) == q && es0[j].1 == es1[m].1
                        by {
                        assert(m != iv);
                        assert(es1[m] == es0[m]);
                        assert(0 <= m < es0.len() && es0[m].0@ == q && es0[m].1 == es1[m].1);
                    }
                    lemma_lookup_unchanged_pointwise(es0, es1, q);
                }
            }
        } else {
            let ghost iv = i as int;
            proof {
                assert forall|j: int| iv <= j < es0.len() implies str_lt(
                    k@,
                    #[trigger] es0[j].0@,
                ) by {
                    assert(found_greater);
                    assert(str_lt(k@, es0[iv].0@));
                    if j > iv {
                        lemma_str_lt_trans(k@, es0[iv].0@, es0[j].0@);
                    }
                }
            }
            self.0.insert(i, (k, v));
            proof {
                let es1 = self.0@;
                assert(es1 == es0.insert(iv, (k, v)));
                assert(forall|m: int| 0 <= m < iv ==> es1[m] == es0[m]);
                assert(es1[iv] == (k, v));
                assert(forall|m: int| iv < m < es1.len() ==> es1[m] == es0[m - 1]);
                assert forall|p: int, q: int| 0 <= p < q < es1.len() implies str_lt(
                    #[trigger] es1[p].0@,
                    #[trigger] es1[q].0@,
                ) by {
                    if q < iv {
                        assert(es1[p] == es0[p] && es1[q] == es0[q]);
                        assert(str_lt(es0[p].0@, es0[q].0@));
                    } else if q == iv {
                        assert(es1[p] == es0[p]);
                        assert(str_lt(es0[p].0@, k@));
                        assert(es1[q].0@ == k@);
                    } else {
                        assert(es1[q] == es0[q - 1]);
                        if p < iv {
                            assert(es1[p] == es0[p]);
                            assert(str_lt(es0[p].0@, es0[q - 1].0@));
                        } else if p == iv {
                            assert(es1[p].0@ == k@);
                            assert(str_lt(k@, es0[q - 1].0@));
                        } else {
                            assert(es1[p] == es0[p - 1]);
                            assert(str_lt(es0[p - 1].0@, es0[q - 1].0@));
                        }
                    }
                }
                assert forall|j: int| 0 <= j < iv implies (#[trigger] es1[j].0@) != k@ by {
                    lemma_str_lt_asymm(es0[j].0@, k@);
                }
                lemma_lookup_found(es1, k@, iv);
                assert forall|q: Seq<char>| q != k@ implies #[trigger] spec_lookup(es1, q)
                    == spec_lookup(es0, q) by {
                    assert forall|m: int|
                        0 <= m < es0.len() && (#[trigger] es0[m].0@) == q implies exists|j: int|
                        0 <= j < es1.len() && (#[trigger] es1[j].0@) == q && es1[j].1 == es0[m].1
                        by {
                        if m < iv {
                            assert(es1[m].0@ == q && es1[m].1 == es0[m].1);
                        } else {
                            assert(es1[m + 1] == es0[m]);
                            assert(es1[m + 1].0@ == q && es1[m + 1].1 == es0[m].1);
                        }
                    }
                    assert forall|m: int|
                        0 <= m < es1.len() && (#[trigger] es1[m].0@) == q implies exists|j: int|
                        0 <= j < es0.len() && (#[trigger] es0[j].0@) == q && es0[j].1 == es1[m].1
                        by {
                        assert(m != iv);
                        if m < iv {
                            assert(es0[m].0@ == q && es0[m].1 == es1[m].1);
                        } else {
                            assert(es1[m] == es0[m - 1]);
                            assert(es0[m - 1].0@ == q && es0[m - 1].1 == es1[m].1);
                        }
                    }
                    lemma_lookup_unchanged_pointwise(es0, es1, q);
                }
            }
        }
    }
}

/// Two entry sequences whose matching indices for a key `q` carry the
/// same values look the same to `spec_lookup` at `q`, provided each is
/// keyed uniquely.
proof fn lemma_lookup_unchanged_pointwise(
    es0: Seq<(String, JsonValue)>,
    es1: Seq<(String, JsonValue)>,
    q: Seq<char>,
)
    requires
        entries_sorted(es0),
        entries_sorted(es1),
        forall|i: int| 0 <= i < es0.len() && (#[trigger] es0[i].0@) == q ==> exists|j: int|
            0 <= j < es1.len() && (#[trigger] es1[j].0@) == q && es1[j].1 == es0[i].1,
        forall|i: int| 0 <= i < es1.len() && (#[trigger] es1[i].0@) == q ==> exists|j: int|
            0 <= j < es0.len() && (#[trigger] es0[j].0@) == q && es0[j].1 == es1[i].1,
    ensures
        spec_lookup(es0, q) == spec_lookup(es1, q),
{
    lemma_keys_unique(es0);
    lemma_keys_unique(es1);
    match spec_lookup(es0, q) {
        Option::Some(_) => {
            lemma_lookup_some_index(es0, q);
            let i = choose|i: int|
                0 <= i < es0.len() && (#[trigger] es0[i].0@) == q && es0[i].1 == spec_lookup(
                    es0,
                    q,
                )->Some_0;
            let j = choose|j: int|
                0 <= j < es1.len() && (#[trigger] es1[j].0@) == q && es1[j].1 == es0[i].1;
            assert forall|m: int| 0 <= m < j implies (#[trigger] es1[m].0@) != q by {
                if es1[m].0@ == q {
                    lemma_str_lt_asymm(es1[m].0@, es1[j].0@);
                }
            }
            lemma_lookup_found(es1, q, j);
        },
        Option::None => {
            assert forall|m: int| 0 <= m < es0.len() implies (#[trigger] es0[m].0@) != q by {
                if es0[m].0@ == q {
                    assert forall|mm: int| 0 <= mm < m implies (#[trigger] es0[mm].0@) != q by {
                        lemma_str_lt_asymm(es0[mm].0@, es0[m].0@);
                    }
                    lemma_lookup_found(es0, q, m);
                }
            }
            if spec_lookup(es1, q) is Some {
                lemma_lookup_some_index(es1, q);
                let j = choose|j: int|
                    0 <= j < es1.len() && (#[trigger] es1[j].0@) == q && es1[j].1 == spec_lookup(
                        es1,
                        q,
                    )->Some_0;
                let jj = choose|jj: int|
                    0 <= jj < es0.len() && (#[trigger] es0[jj].0@) == q && es0[jj].1 == es1[j].1;
            }
        },
    }
}

/// Strictly sorted keys never repeat.
proof fn lemma_keys_unique(es: Seq<(String, JsonValue)>)
    requires
        entries_sorted(es),
    ensures
        forall|i: int, j: int|
            0 <= i < j < es.len() ==> (#[trigger] es[i].0@) != (#[trigger] es[j].0@),
{
    assert forall|i: int, j: int| 0 <= i < j < es.len() implies (#[trigger] es[i].0@)
        != (#[trigger] es[j].0@) by {
        lemma_str_lt_asymm(es[i].0@, es[j].0@);
    }
}

impl From<u64> for JsonValue {
    fn from(v: u64) -> (r: JsonValue) {
        JsonValue::U64(v)
    }
}

impl vstd::std_specs::convert::FromSpecImpl<u64> for JsonValue {
    open spec fn obeys_from_spec() -> bool {
        true
    }

    open spec fn from_spec(v: u64) -> JsonValue {
        JsonValue::U64(v)
    }
}

impl From<i64> for JsonValue {
    fn from(v: i64) -> (r: JsonValue) {
        JsonValue::I64(v)
    }
}

impl vstd::std_specs::convert::FromSpecImpl<i64> for JsonValue {
    open spec fn obeys_from_spec() -> bool {
        true
    }

    open spec fn from_spec(v: i64) -> JsonValue {
        JsonValue::I64(v)
    }
}

impl From<bool> for JsonValue {
    fn from(v: bool) -> (r: JsonValue) {
        JsonValue::Bool(v)
    }
}

impl vstd::std_specs::convert::FromSpecImpl<bool> for JsonValue {
    open spec fn obeys_from_spec() -> bool {
        true
    }

    open spec fn from_spec(v: bool) -> JsonValue {
        JsonValue::Bool(v)
    }
}

impl From<String> for JsonValue {
    fn from(v: String) -> (r: JsonValue) {
        JsonValue::Text(v)
    }
}

impl vstd::std_specs::convert::FromSpecImpl<String> for JsonValue {
    open spec fn obeys_from_spec() -> bool {
        true
    }

    open spec fn from_spec(v: String) -> JsonValue {
        JsonValue::Text(v)
    }
}

impl From<JsonArray> for JsonValue {
    fn from(v: JsonArray) -> (r: JsonValue) {
        JsonValue::Array(v.0)
    }
}

impl vstd::std_specs::convert::FromSpecImpl<JsonArray> for JsonValue {
    open spec fn obeys_from_spec() -> bool {
        true
    }

    open spec fn from_spec(v: JsonArray) -> JsonValue {
        JsonValue::Array(v.0)
    }
}

impl From<JsonObject> for JsonValue {
    fn from(v: JsonObject) -> (r: JsonValue) {
        JsonValue::Object(v.0)
    }
}

impl vstd::std_specs::convert::FromSpecImpl<JsonObject> for JsonValue {
    open spec fn obeys_from_spec() -> bool {
        true
    }

    open spec fn from_spec(v: JsonObject) -> JsonValue {
        JsonValue::Object(v.0)
    }
}

/// An extraction or decode failure.
#[derive(Debug, Clone, Copy, PartialEq, Eq, Structural)]
pub enum JsonError {
    NotJsonType,
    MissingValue,
    InvalidU8,
    InvalidU64,
    InvalidU128,
    InvalidBool,
    InvalidString,
    InvalidArray,
    ExpectedStringGotNumber,
    OutOfRange(JsonOutOfRangeError),
}

/// The closed sub-taxonomy of range failures.
#[derive(Debug, Clone, Copy, PartialEq, Eq, Structural)]
pub enum JsonOutOfRangeError {
    OutOfRangeU8,
    OutOfRangeU128,
}

/// An account-identifier decode failure.
#[derive(Debug, Clone, Copy, PartialEq, Eq, Structural)]
pub enum ParseError {
    InvalidAccountId,
}

/// Finds the entry of a key, if any.
fn lookup_entry<'a>(es: &'a Vec<(String, JsonValue)>, key: &str) -> (r: Option<&'a JsonValue>)
    ensures
        match r {
            Some(v) => spec_lookup(es@, key@) == Option::Some(*v),
            None => spec_lookup(es@, key@) is None,
        },
{
    proof {
        assert(es@.skip(0) =~= es@);
    }
    let mut i: usize = 0;
    while i < es.len()
        invariant
            i <= es@.len(),
            spec_lookup(es@, key@) == spec_lookup(es@.skip(i as int), key@),
        decreases es@.len() - i,
    {
        proof {
            assert(es@.skip(i as int)[0] == es@[i as int]);
        }
        match str_compare(es[i].0.as_str(), key) {
            KeyCmp::Equal => {
                return Some(&es[i].1);
            },
            KeyCmp::Less => {
                proof {
                    lemma_str_lt_asymm(es@[i as int].0@, key@);
                    assert(es@.skip(i as int).drop_first() =~= es@.skip(i + 1));
                }
                i = i + 1;
            },
            KeyCmp::Greater => {
                proof {
                    lemma_str_lt_asymm(key@, es@[i as int].0@);
                    assert(es@.skip(i as int).drop_first() =~= es@.skip(i + 1));
                }
                i = i + 1;
            },
        }
    }
    proof {
        assert(es@.skip(es@.len() as int) =~= Seq::<(String, JsonValue)>::empty());
    }
    None
}

// ---------------------------------------------------------------------------
// Decimal text
// ---------------------------------------------------------------------------

/// Whether a character is an ASCII decimal digit.
pub open spec fn is_dec_digit(c: char) -> bool {
    48 <= c as u32 <= 57
}

/// The numeric value of a decimal digit.
pub open spec fn dec_digit_val(c: char) -> int {
    c as u32 - 48
}

/// Whether every character of a sequence is a decimal digit.
pub open spec fn all_dec_digits(s: Seq<char>) -> bool {
    forall|i: int| 0 <= i < s.len() ==> is_dec_digit(#[trigger] s[i])
}

/// The value of a decimal digit string.
pub open spec fn dec_val(s: Seq<char>) -> int
    decreases s.len(),
{
    if s.len() == 0 {
        0
    } else {
        dec_val(s.drop_last()) * 10 + dec_digit_val(s.last())
    }
}

/// The digit part of a decimal string after an optional leading plus.
pub open spec fn strip_plus(s: Seq<char>) -> Seq<char> {
    if s.len() > 0 && s[0] == '+' {
        s.drop_first()
    } else {
        s
    }
}

/// Whether a string is accepted by the strict unsigned 128-bit decimal
/// parse: an optional plus, one or more digits, value within range.
pub open spec fn parses_as_u128(s: Seq<char>) -> bool {
    strip_plus(s).len() > 0 && all_dec_digits(strip_plus(s)) && dec_val(strip_plus(s))
        <= u128::MAX
}

/// The value of a string accepted by the unsigned 128-bit parse.
pub open spec fn spec_u128_value(s: Seq<char>) -> int {
    dec_val(strip_plus(s))
}

/// Whether a string is accepted by the signed 128-bit decimal parse.
pub open spec fn parses_as_i128(s: Seq<char>) -> bool {
    if s.len() > 0 && s[0] == '-' {
        s.drop_first().len() > 0 && all_dec_digits(s.drop_first()) && dec_val(s.drop_first())
            <= 0x8000_0000_0000_0000_0000_0000_0000_0000
    } else {
        strip_plus(s).len() > 0 && all_dec_digits(strip_plus(s)) && dec_val(strip_plus(s))
            <= i128::MAX
    }
}

proof fn lemma_dec_val_nonneg(s: Seq<char>)
    requires
        all_dec_digits(s),
    ensures
        dec_val(s) >= 0,
    decreases s.len(),
{
    if s.len() > 0 {
        assert(all_dec_digits(s.drop_last())) by {
            assert(forall|i: int| 0 <= i < s.len() - 1 ==> s.drop_last()[i] == s[i]);
        }
        lemma_dec_val_nonneg(s.drop_last());
    }
}

proof fn lemma_dec_val_mono(s: Seq<char>, j: int)
    requires
        all_dec_digits(s),
        0 <= j <= s.len(),
    ensures
        dec_val(s) >= dec_val(s.take(j)),
    decreases s.len() - j,
{
    if j < s.len() {
        lemma_dec_val_mono(s, j + 1);
        assert(s.take(j + 1).drop_last() =~= s.take(j));
        assert(all_dec_digits(s.take(j))) by {
            assert(forall|i: int| 0 <= i < j ==> s.take(j)[i] == s[i]);
        }
        lemma_dec_val_nonneg(s.take(j));
        assert(is_dec_digit(s.take(j + 1).last()));
        assert(dec_val(s.take(j + 1)) >= dec_val(s.take(j)));
    } else {
        assert(s.take(j) =~= s);
    }
}

/// Reads the decimal digits of `s` from `start` to the end, rejecting
/// empty digit runs, non-digits and values beyond the unsigned 128-bit
/// range.
fn parse_digits(s: &str, start: usize) -> (r: Option<u128>)
    requires
        start <= s@.len(),
    ensures
        match r {
            Some(n) => s@.skip(start as int).len() > 0 && all_dec_digits(s@.skip(start as int))
                && dec_val(s@.skip(start as int)) == n,
            None => !(s@.skip(start as int).len() > 0 && all_dec_digits(s@.skip(start as int))
                && dec_val(s@.skip(start as int)) <= u128::MAX),
        },
{
    let len = s.unicode_len();
    if start == len {
        return None;
    }
    let ghost t = s@.skip(start as int);
    let mut acc: u128 = 0;
    let mut i: usize = start;
    while i < len
        invariant
            start <= i <= len,
            len == s@.len(),
            t == s@.skip(start as int),
            all_dec_digits(t.take(i - start)),
            dec_val(t.take(i - start)) == acc,
        decreases len - i,
    {
        let c = s.get_char(i);
        let cu = c as u32;
        proof {
            assert(t[i - start] == s@[i as int]);
        }
        if cu < 48 || cu > 57 {
            proof {
                assert(!is_dec_digit(t[i - start]));
            }
            return None;
        }
        let d = (cu - 48) as u128;
        proof {
            assert(t.take(i - start + 1).drop_last() =~= t.take(i - start));
            assert(all_dec_digits(t.take(i - start + 1))) by {
                assert(forall|j: int|
                    0 <= j < i - start + 1 ==> t.take(i - start + 1)[j] == t[j]);
            }
        }
        if acc > u128::MAX / 10 || (acc == u128::MAX / 10 && d > u128::MAX % 10) {
            proof {
                assert(dec_val(t.take(i - start + 1)) > u128::MAX);
                if all_dec_digits(t) {
                    lemma_dec_val_mono(t, i - start + 1);
                }
            }
            return None;
        }
        acc = acc * 10 + d;
        i = i + 1;
    }
    proof {
        assert(t.take(t.len() as int) =~= t);
    }
    Some(acc)
}

/// Decides the signed 128-bit decimal parse: an optional sign, one or
/// more digits, value within the signed range.
fn parses_signed(s: &str) -> (r: bool)
    ensures
        r == parses_as_i128(s@),
{
    let len = s.unicode_len();
    if len == 0 {
        return false;
    }
    let c0 = s.get_char(0);
    if c0 == '-' {
        proof {
            assert(s@.drop_first() =~= s@.skip(1));
        }
        match parse_digits(s, 1) {
            Some(n) => n <= 0x8000_0000_0000_0000_0000_0000_0000_0000u128,
            None => false,
        }
    } else if c0 == '+' {
        proof {
            assert(strip_plus(s@) =~= s@.skip(1));
        }
        match parse_digits(s, 1) {
            Some(n) => n <= i128::MAX as u128,
            None => false,
        }
    } else {
        proof {
            assert(strip_plus(s@) =~= s@.skip(0));
        }
        match parse_digits(s, 0) {
            Some(n) => n <= i128::MAX as u128,
            None => false,
        }
    }
}

// ---------------------------------------------------------------------------
// Extraction
// ---------------------------------------------------------------------------

impl JsonValue {
    /// A null leaf, as the grammar scanner requests it.
    pub fn new() -> (r: JsonValue)
        ensures
            r == JsonValue::Null,
    {
        JsonValue::Null
    }

    /// Wraps a floating-point number given by its canonical decimal
    /// rendering.
    pub fn from_float_text(text: String) -> (r: JsonValue)
        ensures
            r == JsonValue::Float(text),
    {
        JsonValue::Float(text)
    }

    /// Extracts a text field of a mapping.
    pub fn string(&self, key: &str) -> (r: Result<String, JsonError>)
        ensures
            match *self {
                JsonValue::Object(es) => match spec_lookup(es@, key@) {
                    Option::None => r matches Err(e) && e == JsonError::MissingValue,
                    Option::Some(v) => match v {
                        JsonValue::Text(s) => r matches Ok(out) && out@ == s@,
                        _ => r matches Err(e) && e == JsonError::InvalidString,
                    },
                },
                _ => r matches Err(e) && e == JsonError::NotJsonType,
            },
    {
        match self {
            JsonValue::Object(es) => match lookup_entry(es, key) {
                Some(v) => match v {
                    JsonValue::Text(s) => Ok(s.clone()),
                    _ => Err(JsonError::InvalidString),
                },
                None => Err(JsonError::MissingValue),
            },
            _ => Err(JsonError::NotJsonType),
        }
    }

    /// Extracts an unsigned 64-bit field of a mapping.
    pub fn u64(&self, key: &str) -> (r: Result<u64, JsonError>)
        ensures
            match *self {
                JsonValue::Object(es) => match spec_lookup(es@, key@) {
                    Option::None => r matches Err(e) && e == JsonError::MissingValue,
                    Option::Some(v) => match v {
                        JsonValue::U64(n) => r matches Ok(out) && out == n,
                        _ => r matches Err(e) && e == JsonError::InvalidU64,
                    },
                },
                _ => r matches Err(e) && e == JsonError::NotJsonType,
            },
    {
        match self {
            JsonValue::Object(es) => match lookup_entry(es, key) {
                Some(v) => match v {
                    JsonValue::U64(n) => Ok(*n),
                    _ => Err(JsonError::InvalidU64),
                },
                None => Err(JsonError::MissingValue),
            },
            _ => Err(JsonError::NotJsonType),
        }
    }

    /// Extracts an unsigned 128-bit field of a mapping. The field must
    /// be a decimal string: numeric variants are refused, since 128-bit
    /// magnitudes must travel as text.
    pub fn u128(&self, key: &str) -> (r: Result<u128, JsonError>)
        ensures
            match *self {
                JsonValue::Object(es) => match spec_lookup(es@, key@) {
                    Option::None => r matches Err(e) && e == JsonError::MissingValue,
                    Option::Some(v) => spec_u128_result(v, r),
                },
                _ => r matches Err(e) && e == JsonError::NotJsonType,
            },
    {
        match self {
            JsonValue::Object(es) => match lookup_entry(es, key) {
                Some(v) => Self::parse_u128(v),
                None => Err(JsonError::MissingValue),
            },
            _ => Err(JsonError::NotJsonType),
        }
    }

    /// Extracts a boolean field of a mapping.
    pub fn bool(&self, key: &str) -> (r: Result<bool, JsonError>)
        ensures
            match *self {
                JsonValue::Object(es) => match spec_lookup(es@, key@) {
                    Option::None => r matches Err(e) && e == JsonError::MissingValue,
                    Option::Some(v) => match v {
                        JsonValue::Bool(b) => r matches Ok(out) && out == b,
                        _ => r matches Err(e) && e == JsonError::InvalidBool,
                    },
                },
                _ => r matches Err(e) && e == JsonError::NotJsonType,
            },
    {
        match self {
            JsonValue::Object(es) => match lookup_entry(es, key) {
                Some(v) => match v {
                    JsonValue::Bool(b) => Ok(*b),
                    _ => Err(JsonError::InvalidBool),
                },
                None => Err(JsonError::MissingValue),
            },
            _ => Err(JsonError::NotJsonType),
        }
    }

    /// Extracts a byte from an unsigned-integer value; values above 255
    /// are out of range, any other variant is invalid.
    pub fn parse_u8(v: &JsonValue) -> (r: Result<u8, JsonError>)
        ensures
            match *v {
                JsonValue::U64(n) => if n > 255 {
                    r matches Err(e) && e == JsonError::OutOfRange(
                        JsonOutOfRangeError::OutOfRangeU8,
                    )
                } else {
                    r matches Ok(out) && out == n
                },
                _ => r matches Err(e) && e == JsonError::InvalidU8,
            },
    {
        match v {
            JsonValue::U64(n) => {
                if *n > 255 {
                    Err(JsonError::OutOfRange(JsonOutOfRangeError::OutOfRangeU8))
                } else {
                    Ok(*n as u8)
                }
            },
            _ => Err(JsonError::InvalidU8),
        }
    }

    /// Converts a value to an unsigned 128-bit integer under the strict
    /// decimal-text rule.
    pub fn parse_u128(v: &JsonValue) -> (r: Result<u128, JsonError>)
        ensures
            spec_u128_result(*v, r),
    {
        match v {
            JsonValue::Text(s) => {
                let st = s.as_str();
                let len = st.unicode_len();
                let digits = if len > 0 && st.get_char(0) == '+' {
                    proof {
                        assert(strip_plus(s@) =~= s@.skip(1));
                    }
                    parse_digits(st, 1)
                } else {
                    proof {
                        assert(strip_plus(s@) =~= s@.skip(0));
                    }
                    parse_digits(st, 0)
                };
                match digits {
                    Some(n) => Ok(n),
                    None => {
                        if parses_signed(st) {
                            Err(JsonError::OutOfRange(JsonOutOfRangeError::OutOfRangeU128))
                        } else {
                            Err(JsonError::InvalidU128)
                        }
                    },
                }
            },
            JsonValue::Float(_) => Err(JsonError::ExpectedStringGotNumber),
            JsonValue::I64(_) => Err(JsonError::ExpectedStringGotNumber),
            JsonValue::U64(_) => Err(JsonError::ExpectedStringGotNumber),
            _ => Err(JsonError::InvalidU128),
        }
    }
}

/// What the strict unsigned 128-bit conversion returns for a value:
/// the parsed number for an in-range decimal string, a range error for
/// a string that only the signed parse accepts, a type error for any
/// numeric variant, and an invalid error otherwise.
pub open spec fn spec_u128_result(v: JsonValue, r: Result<u128, JsonError>) -> bool {
    match v {
        JsonValue::Text(s) => if parses_as_u128(s@) {
            r matches Ok(n) && n == spec_u128_value(s@)
        } else if parses_as_i128(s@) {
            r matches Err(e) && e == JsonError::OutOfRange(JsonOutOfRangeError::OutOfRangeU128)
        } else {
            r matches Err(e) && e == JsonError::InvalidU128
        },
        JsonValue::Float(_) => r matches Err(e) && e == JsonError::ExpectedStringGotNumber,
        JsonValue::I64(_) => r matches Err(e) && e == JsonError::ExpectedStringGotNumber,
        JsonValue::U64(_) => r matches Err(e) && e == JsonError::ExpectedStringGotNumber,
        _ => r matches Err(e) && e == JsonError::InvalidU128,
    }
}

// ---------------------------------------------------------------------------
// Rendering
// ---------------------------------------------------------------------------

/// The decimal rendering of an unsigned number.
pub open spec fn spec_dec_u64(n: nat) -> Seq<char>
    decreases n,
{
    if n < 10 {
        seq![hex_digit(n as u8)]
    } else {
        spec_dec_u64(n / 10).push(hex_digit((n % 10) as u8))
    }
}

/// The decimal rendering of a signed number.
pub open spec fn spec_dec_i64(n: int) -> Seq<char> {
    if n < 0 {
        seq!['-'] + spec_dec_u64((-n) as nat)
    } else {
        spec_dec_u64(n as nat)
    }
}

/// The diagnostic rendering of a value: `null`, numbers and booleans
/// bare, text quoted, sequences bracketed and mappings braced with
/// comma-space separators and `"key": value` entries.
pub open spec fn spec_render(v: JsonValue) -> Seq<char>
    decreases v, 1int, 0int,
{
    match v {
        JsonValue::Null => "null"@,
        JsonValue::Float(s) => s@,
        JsonValue::I64(n) => spec_dec_i64(n as int),
        JsonValue::U64(n) => spec_dec_u64(n as nat),
        JsonValue::Bool(b) => if b {
            "true"@
        } else {
            "false"@
        },
        JsonValue::Text(s) => seq!['"'] + s@ + seq!['"'],
        JsonValue::Array(_) => seq!['['] + spec_render_items(v, 0) + seq![']'],
        JsonValue::Object(_) => seq!['{'] + spec_render_entries(v, 0) + seq!['}'],
    }
}

/// The rendering of a sequence's elements from position `i` on,
/// a comma-space before every element but the first.
pub open spec fn spec_render_items(v: JsonValue, i: int) -> Seq<char>
    decreases v, 0int, (if v is Array { v->Array_0@.len() - i } else { 0 }),
{
    if v is Array && 0 <= i < v->Array_0@.len() {
        (if i > 0 {
            seq![',', ' ']
        } else {
            Seq::empty()
        }) + spec_render(v->Array_0@[i]) + spec_render_items(v, i + 1)
    } else {
        Seq::empty()
    }
}

/// The rendering of a mapping's entries from position `i` on, each as
/// the quoted key, a colon-space, and the value.
pub open spec fn spec_render_entries(v: JsonValue, i: int) -> Seq<char>
    decreases v, 0int, (if v is Object { v->Object_0@.len() - i } else { 0 }),
{
    if v is Object && 0 <= i < v->Object_0@.len() {
        (if i > 0 {
            seq![',', ' ']
        } else {
            Seq::empty()
        }) + seq!['"'] + v->Object_0@[i].0@ + seq!['"', ':', ' '] + spec_render(
            v->Object_0@[i].1,
        ) + spec_render_entries(v, i + 1)
    } else {
        Seq::empty()
    }
}

/// Appends the decimal rendering of an unsigned number.
fn push_dec_u64(s: &mut String, n: u64)
    ensures
        final(s)@ == old(s)@ + spec_dec_u64(n as nat),
    decreases n,
{
    if n < 10 {
        push_char(s, hex_digit_char(n as u8));
        proof {
            assert(old(s)@.push(hex_digit(n as u8)) =~= old(s)@ + spec_dec_u64(n as nat));
        }
    } else {
        push_dec_u64(s, n / 10);
        push_char(s, hex_digit_char((n % 10) as u8));
        proof {
            assert((old(s)@ + spec_dec_u64((n / 10) as nat)).push(hex_digit((n % 10) as u8))
                =~= old(s)@ + spec_dec_u64(n as nat));
        }
    }
}

/// Appends the decimal rendering of a signed number.
fn push_dec_i64(s: &mut String, n: i64)
    ensures
        final(s)@ == old(s)@ + spec_dec_i64(n as int),
{
    if n < 0 {
        push_char(s, '-');
        let mag: u64 = (-(n as i128)) as u64;
        proof {
            assert(mag as nat == (-(n as int)) as nat);
        }
        push_dec_u64(s, mag);
        proof {
            assert(old(s)@.push('-') + spec_dec_u64(mag as nat) =~= old(s)@ + spec_dec_i64(
                n as int,
            ));
        }
    } else {
        push_dec_u64(s, n as u64);
    }
}

impl JsonValue {
    /// Renders the value as diagnostic text.
    pub fn render(&self) -> (r: String)
        ensures
            r@ == spec_render(*self),
        decreases *self, 1int, 0int,
    {
        match self {
            JsonValue::Null => String::from_str("null"),
            JsonValue::Float(s) => s.clone(),
            JsonValue::I64(n) => {
                let mut out = String::new();
                push_dec_i64(&mut out, *n);
                out
            },
            JsonValue::U64(n) => {
                let mut out = String::new();
                push_dec_u64(&mut out, *n);
                out
            },
            JsonValue::Bool(b) => {
                if *b {
                    String::from_str("true")
                } else {
                    String::from_str("false")
                }
            },
            JsonValue::Text(s) => {
                let mut out = String::new();
                push_char(&mut out, '"');
                out.append(s.as_str());
                push_char(&mut out, '"');
                proof {
                    assert(out@ =~= seq!['"'] + s@ + seq!['"']);
                }
                out
            },
            JsonValue::Array(_) => {
                let mut out = String::new();
                push_char(&mut out, '[');
                let rest = self.render_items_from(0);
                out.append(rest.as_str());
                push_char(&mut out, ']');
                proof {
                    assert(out@ =~= seq!['['] + spec_render_items(*self, 0) + seq![']']);
                }
                out
            },
            JsonValue::Object(_) => {
                let mut out = String::new();
                push_char(&mut out, '{');
                let rest = self.render_entries_from(0);
                out.append(rest.as_str());
                push_char(&mut out, '}');
                proof {
                    assert(out@ =~= seq!['{'] + spec_render_entries(*self, 0) + seq!['}']);
                }
                out
            },
        }
    }

    fn render_items_from(&self, i: usize) -> (r: String)
        requires
            self is Array,
            i <= self->Array_0@.len(),
        ensures
            r@ == spec_render_items(*self, i as int),
        decreases *self, 0int, self->Array_0@.len() - i,
    {
        match self {
            JsonValue::Array(items) => {
                if i < items.len() {
                    let mut out = String::new();
                    if i > 0 {
                        push_char(&mut out, ',');
                        push_char(&mut out, ' ');
                    }
                    let piece = items[i].render();
                    out.append(piece.as_str());
                    let rest = self.render_items_from(i + 1);
                    out.append(rest.as_str());
                    proof {
                        assert(out@ =~= spec_render_items(*self, i as int));
                    }
                    out
                } else {
                    String::new()
                }
            },
            _ => String::new(),
        }
    }

    fn render_entries_from(&self, i: usize) -> (r: String)
        requires
            self is Object,
            i <= self->Object_0@.len(),
        ensures
            r@ == spec_render_entries(*self, i as int),
        decreases *self, 0int, self->Object_0@.len() - i,
    {
        match self {
            JsonValue::Object(es) => {
                if i < es.len() {
                    let mut out = String::new();
                    if i > 0 {
                        push_char(&mut out, ',');
                        push_char(&mut out, ' ');
                    }
                    push_char(&mut out, '"');
                    out.append(es[i].0.as_str());
                    push_char(&mut out, '"');
                    push_char(&mut out, ':');
                    push_char(&mut out, ' ');
                    let piece = es[i].1.render();
                    out.append(piece.as_str());
                    let rest = self.render_entries_from(i + 1);
                    out.append(rest.as_str());
                    proof {
                        assert(out@ =~= spec_render_entries(*self, i as int));
                    }
                    out
                } else {
                    String::new()
                }
            },
            _ => String::new(),
        }
    }
}

// ---------------------------------------------------------------------------
// Mapping canonicalization
// ---------------------------------------------------------------------------

proof fn lemma_entries_determined(a: Seq<(String, JsonValue)>, b: Seq<(String, JsonValue)>)
    requires
        entries_sorted(a),
        entries_sorted(b),
        forall|q: Seq<char>| spec_lookup(a, q) == spec_lookup(b, q),
    ensures
        a.len() == b.len(),
        forall|i: int| 0 <= i < a.len() ==> (#[trigger] a[i]).0@ == b[i].0@ && a[i].1 == b[i].1,
    decreases a.len(),
{
    if a.len() == 0 {
        if b.len() > 0 {
            assert(spec_lookup(b, b[0].0@) == Option::Some(b[0].1));
        }
    } else if b.len() == 0 {
        assert(spec_lookup(a, a[0].0@) == Option::Some(a[0].1));
    } else {
        let ka = a[0].0@;
        let kb = b[0].0@;
        assert(spec_lookup(a, ka) == Option::Some(a[0].1));
        assert(spec_lookup(b, kb) == Option::Some(b[0].1));
        if ka != kb {
            lemma_str_lt_connected(ka, kb);
            if str_lt(ka, kb) {
                lemma_lookup_some_index(b, ka);
                let i = choose|i: int|
                    0 <= i < b.len() && (#[trigger] b[i].0@) == ka && b[i].1 == spec_lookup(
                        b,
                        ka,
                    )->Some_0;
                assert(i > 0);
                assert(str_lt(kb, b[i].0@));
                lemma_str_lt_trans(ka, kb, ka);
                lemma_str_lt_asymm(ka, ka);
            } else {
                lemma_lookup_some_index(a, kb);
                let i = choose|i: int|
                    0 <= i < a.len() && (#[trigger] a[i].0@) == kb && a[i].1 == spec_lookup(
                        a,
                        kb,
                    )->Some_0;
                assert(i > 0);
                assert(str_lt(ka, a[i].0@));
                lemma_str_lt_trans(kb, ka, kb);
                lemma_str_lt_asymm(kb, kb);
            }
        }
        assert(ka == kb);
        assert(a[0].1 == b[0].1);
        let ta = a.drop_first();
        let tb = b.drop_first();
        assert(forall|m: int| 0 <= m < ta.len() ==> (#[trigger] ta[m]) == a[m + 1]);
        assert(forall|m: int| 0 <= m < tb.len() ==> (#[trigger] tb[m]) == b[m + 1]);
        assert(entries_sorted(ta));
        assert(entries_sorted(tb));
        assert forall|q: Seq<char>| #[trigger] spec_lookup(ta, q) == spec_lookup(tb, q) by {
            if q == ka {
                assert forall|m: int| 0 <= m < ta.len() implies (#[trigger] ta[m].0@) != q by {
                    assert(str_lt(a[0].0@, a[m + 1].0@));
                    lemma_str_lt_asymm(a[0].0@, a[m + 1].0@);
                }
                assert forall|m: int| 0 <= m < tb.len() implies (#[trigger] tb[m].0@) != q by {
                    assert(str_lt(b[0].0@, b[m + 1].0@));
                    lemma_str_lt_asymm(b[0].0@, b[m + 1].0@);
                }
                lemma_lookup_absent(ta, q);
                lemma_lookup_absent(tb, q);
            } else {
                assert(spec_lookup(a, q) == spec_lookup(ta, q));
                assert(spec_lookup(b, q) == spec_lookup(tb, q));
            }
        }
        lemma_entries_determined(ta, tb);
        assert forall|i: int| 0 <= i < a.len() implies (#[trigger] a[i]).0@ == b[i].0@ && a[i].1
            == b[i].1 by {
            if i > 0 {
                assert(ta[i - 1].0@ == tb[i - 1].0@ && ta[i - 1].1 == tb[i - 1].1);
            }
        }
    }
}

proof fn lemma_render_entries_equal(a: JsonValue, b: JsonValue, i: int)
    requires
        a is Object,
        b is Object,
        a->Object_0@.len() == b->Object_0@.len(),
        forall|m: int|
            0 <= m < a->Object_0@.len() ==> (#[trigger] a->Object_0@[m]).0@ == b->Object_0@[m].0@
                && a->Object_0@[m].1 == b->Object_0@[m].1,
        0 <= i <= a->Object_0@.len(),
    ensures
        spec_render_entries(a, i) == spec_render_entries(b, i),
    decreases a->Object_0@.len() - i,
{
    if i < a->Object_0@.len() {
        lemma_render_entries_equal(a, b, i + 1);
    }
}

/// Mapping canonicalization: two key-sorted mappings that store the
/// same value under every key hold the same entries in the same order,
/// and render as the same text, whatever order their entries were
/// inserted in.
pub proof fn lemma_mapping_canonical(a: JsonValue, b: JsonValue)
    requires
        a is Object,
        b is Object,
        entries_sorted(a->Object_0@),
        entries_sorted(b->Object_0@),
        forall|q: Seq<char>|
            #[trigger] spec_lookup(a->Object_0@, q) == spec_lookup(b->Object_0@, q),
    ensures
        a->Object_0@.len() == b->Object_0@.len(),
        forall|i: int|
            0 <= i < a->Object_0@.len() ==> (#[trigger] a->Object_0@[i]).0@ == b->Object_0@[i].0@
                && a->Object_0@[i].1 == b->Object_0@[i].1,
        spec_render(a) == spec_render(b),
{
    lemma_entries_determined(a->Object_0@, b->Object_0@);
    lemma_render_entries_equal(a, b, 0);
}

impl JsonError {
    /// The fixed diagnostic text of this error.
    pub open spec fn spec_msg(self) -> Seq<char> {
        match self {
            JsonError::NotJsonType => "ERR_NOT_A_JSON_TYPE"@,
            JsonError::MissingValue => "ERR_JSON_MISSING_VALUE"@,
            JsonError::InvalidU8 => "ERR_FAILED_PARSE_U8"@,
            JsonError::InvalidU64 => "ERR_FAILED_PARSE_U64"@,
            JsonError::InvalidU128 => "ERR_FAILED_PARSE_U128"@,
            JsonError::InvalidBool => "ERR_FAILED_PARSE_BOOL"@,
            JsonError::InvalidString => "ERR_FAILED_PARSE_STRING"@,
            JsonError::InvalidArray => "ERR_FAILED_PARSE_ARRAY"@,
            JsonError::ExpectedStringGotNumber => "ERR_EXPECTED_STRING_GOT_NUMBER"@,
            JsonError::OutOfRange(e) => e.spec_msg(),
        }
    }

    /// The fixed diagnostic byte string surfaced to external callers.
    pub fn msg(&self) -> (r: &'static str)
        ensures
            r@ == self.spec_msg(),
    {
        match self {
            JsonError::NotJsonType => "ERR_NOT_A_JSON_TYPE",
            JsonError::MissingValue => "ERR_JSON_MISSING_VALUE",
            JsonError::InvalidU8 => "ERR_FAILED_PARSE_U8",
            JsonError::InvalidU64 => "ERR_FAILED_PARSE_U64",
            JsonError::InvalidU128 => "ERR_FAILED_PARSE_U128",
            JsonError::InvalidBool => "ERR_FAILED_PARSE_BOOL",
            JsonError::InvalidString => "ERR_FAILED_PARSE_STRING",
            JsonError::InvalidArray => "ERR_FAILED_PARSE_ARRAY",
            JsonError::ExpectedStringGotNumber => "ERR_EXPECTED_STRING_GOT_NUMBER",
            JsonError::OutOfRange(e) => e.msg(),
        }
    }
}

impl JsonOutOfRangeError {
    /// The fixed diagnostic text of this range error.
    pub open spec fn spec_msg(self) -> Seq<char> {
        match self {
            JsonOutOfRangeError::OutOfRangeU8 => "ERR_OUT_OF_RANGE_U8"@,
            JsonOutOfRangeError::OutOfRangeU128 => "ERR_OUT_OF_RANGE_U128"@,
        }
    }

    /// The fixed diagnostic byte string surfaced to external callers.
    pub fn msg(&self) -> (r: &'static str)
        ensures
            r@ == self.spec_msg(),
    {
        match self {
            JsonOutOfRangeError::OutOfRangeU8 => "ERR_OUT_OF_RANGE_U8",
            JsonOutOfRangeError::OutOfRangeU128 => "ERR_OUT_OF_RANGE_U128",
        }
    }
}

} // verus!
