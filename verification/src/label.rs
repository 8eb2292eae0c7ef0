//! Labels: pairs of a key and a value, and the byte strings that stand for
//! them in the two posting indexes.

use crate::bytes::{bytes_equal, bytes_less, lex_lt, text_bytes};
use crate::errors::McError;
use crate::order::{Sortable, StrictOrder};
use vstd::prelude::*;
use vstd::slice::slice_subrange;
use vstd::utf8::valid_utf8;

verus! {

/// The byte that parts key and value in an index key: `=`.
pub const SEPARATOR: u8 = 61;

/// A label as a pair of byte strings.
pub struct LabelModel {
    /// The bytes of the key.
    pub key: Seq<u8>,
    /// The bytes of the value.
    pub value: Seq<u8>,
}

impl LabelModel {
    /// Key and value are text, and the key is free of the separator.
    pub open spec fn well_formed(self) -> bool {
        &&& valid_utf8(self.key)
        &&& valid_utf8(self.value)
        &&& !self.key.contains(SEPARATOR)
    }

    /// The key of this label in the index that lists labels key first.
    pub open spec fn forward(self) -> Seq<u8> {
        self.key + seq![SEPARATOR] + self.value
    }

    /// The key of this label in the index that lists labels value first.
    pub open spec fn reverse(self) -> Seq<u8> {
        self.value + seq![SEPARATOR] + self.key
    }

    /// The label with key and value exchanged.
    pub open spec fn swapped(self) -> LabelModel {
        LabelModel { key: self.value, value: self.key }
    }
}

impl StrictOrder for LabelModel {
    /// Labels are ordered by key, and by value where the keys agree.
    open spec fn precedes(self, other: Self) -> bool {
        lex_lt(self.key, other.key) || (self.key == other.key && lex_lt(self.value, other.value))
    }

    proof fn irreflexive(a: Self) {
        Seq::<u8>::irreflexive(a.key);
        Seq::<u8>::irreflexive(a.value);
    }

    proof fn transitive(a: Self, b: Self, c: Self) {
        Seq::<u8>::irreflexive(a.key);
        Seq::<u8>::irreflexive(b.key);
        if lex_lt(a.key, b.key) && lex_lt(b.key, c.key) {
            Seq::<u8>::transitive(a.key, b.key, c.key);
        }
        if a.key == b.key && b.key == c.key {
            Seq::<u8>::transitive(a.value, b.value, c.value);
        }
    }

    proof fn connected(a: Self, b: Self) {
        Seq::<u8>::connected(a.key, b.key);
        Seq::<u8>::connected(a.value, b.value);
    }
}

/// The position of the first `x` in `b`, or the length of `b` if there is
/// none.
pub open spec fn first_index(b: Seq<u8>, x: u8) -> int
    decreases b.len(),
{
    if b.len() == 0 || b[0] == x {
        0
    } else {
        1 + first_index(b.drop_first(), x)
    }
}

/// The position of the last `x` in `b`, or -1 if there is none.
pub open spec fn last_index(b: Seq<u8>, x: u8) -> int
    decreases b.len(),
{
    if b.len() == 0 {
        -1
    } else if b.last() == x {
        b.len() - 1
    } else {
        last_index(b.drop_last(), x)
    }
}

/// What `first_index` finds is the first occurrence.
pub proof fn lemma_first_index(b: Seq<u8>, x: u8)
    ensures
        0 <= first_index(b, x) <= b.len(),
        first_index(b, x) < b.len() ==> b[first_index(b, x)] == x,
        forall|j: int| 0 <= j < first_index(b, x) ==> b[j] != x,
        first_index(b, x) < b.len() <==> b.contains(x),
    decreases b.len(),
{
    if b.len() == 0 || b[0] == x {
        if b.len() > 0 {
            assert(b.contains(x));
        }
    } else {
        let t = b.drop_first();
        lemma_first_index(t, x);
        let r = first_index(b, x);
        assert forall|j: int| 0 <= j < r implies b[j] != x by {
            if j > 0 {
                assert(b[j] == t[j - 1]);
            }
        }
        if r < b.len() {
            assert(b[r] == t[r - 1]);
            assert(b.contains(x));
        }
        if b.contains(x) {
            let k = choose|k: int| 0 <= k < b.len() && b[k] == x;
            assert(t[k - 1] == x);
            assert(t.contains(x));
        }
    }
}

/// What `last_index` finds is the last occurrence.
pub proof fn lemma_last_index(b: Seq<u8>, x: u8)
    ensures
        -1 <= last_index(b, x) < b.len(),
        last_index(b, x) >= 0 ==> b[last_index(b, x)] == x,
        forall|j: int| last_index(b, x) < j < b.len() ==> b[j] != x,
        last_index(b, x) >= 0 <==> b.contains(x),
    decreases b.len(),
{
    if b.len() == 0 {
    } else if b.last() == x {
        assert(b[b.len() - 1] == x);
        assert(b.contains(x));
    } else {
        let t = b.drop_last();
        lemma_last_index(t, x);
        let r = last_index(b, x);
        assert forall|j: int| r < j < b.len() implies b[j] != x by {
            if j < t.len() {
                assert(b[j] == t[j]);
            }
        }
        if r >= 0 {
            assert(b[r] == t[r]);
            assert(b.contains(x));
        }
        if b.contains(x) {
            let k = choose|k: int| 0 <= k < b.len() && b[k] == x;
            assert(t[k] == x);
            assert(t.contains(x));
        }
    }
}

/// An occurrence of `x` with none before it is the first one.
pub proof fn lemma_first_index_is(b: Seq<u8>, x: u8, i: int)
    requires
        0 <= i < b.len(),
        b[i] == x,
        forall|j: int| 0 <= j < i ==> b[j] != x,
    ensures
        first_index(b, x) == i,
{
    lemma_first_index(b, x);
    let r = first_index(b, x);
    assert(b.contains(x));
    if r < i {
        assert(b[r] != x);
    }
}

/// An occurrence of `x` with none after it is the last one.
pub proof fn lemma_last_index_is(b: Seq<u8>, x: u8, i: int)
    requires
        0 <= i < b.len(),
        b[i] == x,
        forall|j: int| i < j < b.len() ==> b[j] != x,
    ensures
        last_index(b, x) == i,
{
    lemma_last_index(b, x);
    let r = last_index(b, x);
    assert(b.contains(x));
    if r > i {
        assert(b[r] != x);
    }
}

/// The label that an index key of the key-first index stands for: the key
/// ends at the first separator.
pub open spec fn parse_forward(b: Seq<u8>) -> Result<LabelModel, McError> {
    if !valid_utf8(b) {
        Err(McError::Format)
    } else if !b.contains(SEPARATOR) {
        Err(McError::InvalidLabel)
    } else {
        let i = first_index(b, SEPARATOR);
        Ok(LabelModel { key: b.subrange(0, i), value: b.subrange(i + 1, b.len() as int) })
    }
}

/// The label that an index key of the value-first index stands for: the key
/// begins behind the last separator.
pub open spec fn parse_reverse(b: Seq<u8>) -> Result<LabelModel, McError> {
    if !valid_utf8(b) {
        Err(McError::Format)
    } else if !b.contains(SEPARATOR) {
        Err(McError::InvalidLabel)
    } else {
        let i = last_index(b, SEPARATOR);
        Ok(LabelModel { key: b.subrange(i + 1, b.len() as int), value: b.subrange(0, i) })
    }
}

/// Text cut at a byte below 128 leaves text on both sides.
pub proof fn lemma_split_at_ascii(b: Seq<u8>, i: int)
    requires
        valid_utf8(b),
        0 <= i < b.len(),
        b[i] < 128,
    ensures
        valid_utf8(b.subrange(0, i)),
        valid_utf8(b.subrange(i + 1, b.len() as int)),
{
    vstd::utf8::is_char_boundary_iff_not_is_continuation_byte(b, i);
    vstd::utf8::valid_utf8_split(b, i);
    let t = b.subrange(i, b.len() as int);
    assert(t[0] == b[i]);
    assert(vstd::utf8::pop_first_scalar(t) =~= b.subrange(i + 1, b.len() as int));
}

/// Text cut at a separator leaves text on both sides.
pub proof fn lemma_split_at_separator(b: Seq<u8>, i: int)
    requires
        valid_utf8(b),
        0 <= i < b.len(),
        b[i] == SEPARATOR,
    ensures
        valid_utf8(b.subrange(0, i)),
        valid_utf8(b.subrange(i + 1, b.len() as int)),
{
    lemma_split_at_ascii(b, i);
}

/// The separator alone is text.
pub proof fn lemma_separator_is_text()
    ensures
        valid_utf8(seq![SEPARATOR]),
{
    let s = seq![SEPARATOR];
    assert(s[0] == 61u8);
    assert(61u8 & 0x7F == 61u8) by (bit_vector);
    assert(vstd::utf8::pop_first_scalar(s) =~= Seq::<u8>::empty());
    assert(vstd::utf8::valid_first_scalar(s));
    reveal_with_fuel(vstd::utf8::valid_utf8, 2);
}

/// The forward and the reverse form of a label of text are text.
pub proof fn lemma_forms_are_text(m: LabelModel)
    requires
        valid_utf8(m.key),
        valid_utf8(m.value),
    ensures
        valid_utf8(m.forward()),
        valid_utf8(m.reverse()),
{
    lemma_separator_is_text();
    vstd::utf8::valid_utf8_concat(m.key, seq![SEPARATOR]);
    vstd::utf8::valid_utf8_concat(m.key + seq![SEPARATOR], m.value);
    vstd::utf8::valid_utf8_concat(m.value, seq![SEPARATOR]);
    vstd::utf8::valid_utf8_concat(m.value + seq![SEPARATOR], m.key);
}

/// The forward form of a well-formed label is read back as that label.
pub proof fn lemma_parse_forward_of_forward(m: LabelModel)
    requires
        m.well_formed(),
    ensures
        parse_forward(m.forward()) == Ok::<LabelModel, McError>(m),
{
    let b = m.forward();
    let i = m.key.len() as int;
    lemma_forms_are_text(m);
    assert(b[i] == SEPARATOR);
    assert forall|j: int| 0 <= j < i implies b[j] != SEPARATOR by {
        assert(b[j] == m.key[j]);
        assert(m.key.contains(m.key[j]));
    }
    lemma_first_index_is(b, SEPARATOR, i);
    assert(b.contains(SEPARATOR));
    assert(b.subrange(0, i) =~= m.key);
    assert(b.subrange(i + 1, b.len() as int) =~= m.value);
}

/// The reverse form of a well-formed label is read back as that label.
pub proof fn lemma_parse_reverse_of_reverse(m: LabelModel)
    requires
        m.well_formed(),
    ensures
        parse_reverse(m.reverse()) == Ok::<LabelModel, McError>(m),
{
    let b = m.reverse();
    let i = m.value.len() as int;
    lemma_forms_are_text(m);
    assert(b[i] == SEPARATOR);
    assert forall|j: int| i < j < b.len() implies b[j] != SEPARATOR by {
        assert(b[j] == m.key[j - i - 1]);
        assert(m.key.contains(m.key[j - i - 1]));
    }
    lemma_last_index_is(b, SEPARATOR, i);
    assert(b.contains(SEPARATOR));
    assert(b.subrange(0, i) =~= m.value);
    assert(b.subrange(i + 1, b.len() as int) =~= m.key);
}

/// What is read from an index key of the key-first index is well formed,
/// and has that key as its forward form.
pub proof fn lemma_forward_of_parse_forward(b: Seq<u8>)
    requires
        parse_forward(b) is Ok,
    ensures
        parse_forward(b)->Ok_0.well_formed(),
        parse_forward(b)->Ok_0.forward() == b,
{
    let i = first_index(b, SEPARATOR);
    lemma_first_index(b, SEPARATOR);
    lemma_split_at_separator(b, i);
    let m = parse_forward(b)->Ok_0;
    if m.key.contains(SEPARATOR) {
        let k = choose|k: int| 0 <= k < m.key.len() && m.key[k] == SEPARATOR;
        assert(b[k] == SEPARATOR);
    }
    assert(m.forward() =~= b);
}

/// What is read from an index key of the value-first index is well formed,
/// and has that key as its reverse form.
pub proof fn lemma_reverse_of_parse_reverse(b: Seq<u8>)
    requires
        parse_reverse(b) is Ok,
    ensures
        parse_reverse(b)->Ok_0.well_formed(),
        parse_reverse(b)->Ok_0.reverse() == b,
{
    let i = last_index(b, SEPARATOR);
    lemma_last_index(b, SEPARATOR);
    lemma_split_at_separator(b, i);
    let m = parse_reverse(b)->Ok_0;
    if m.key.contains(SEPARATOR) {
        let k = choose|k: int| 0 <= k < m.key.len() && m.key[k] == SEPARATOR;
        assert(b[i + 1 + k] == SEPARATOR);
    }
    assert(m.reverse() =~= b);
}

/// Two well-formed labels with the same forward form, or with the same
/// reverse form, are the same label.
pub proof fn lemma_forms_are_injective(a: LabelModel, b: LabelModel)
    requires
        a.well_formed(),
        b.well_formed(),
        a.forward() == b.forward() || a.reverse() == b.reverse(),
    ensures
        a == b,
{
    lemma_parse_forward_of_forward(a);
    lemma_parse_forward_of_forward(b);
    lemma_parse_reverse_of_reverse(a);
    lemma_parse_reverse_of_reverse(b);
}

/// The text that a byte string holds, if it is UTF-8.
///
/// Trusted: `std::str::from_utf8` returns the bytes as a string slice when
/// they are valid UTF-8, and an error otherwise.
#[verifier::external_body]
pub(crate) fn utf8_text(b: &[u8]) -> (r: Option<&str>)
    ensures
        r is Some <==> valid_utf8(b@),
        r matches Some(s) ==> text_bytes(s@) == b@,
{
    std::str::from_utf8(b).ok()
}

/// The position of the first separator in `b`.
fn find_first_separator(b: &[u8]) -> (r: Option<usize>)
    ensures
        r is Some <==> b@.contains(SEPARATOR),
        r matches Some(i) ==> i == first_index(b@, SEPARATOR) && i < b@.len() && b@[i as int]
            == SEPARATOR,
{
    let mut i: usize = 0;
    while i < b.len()
        invariant
            i <= b.len(),
            forall|j: int| 0 <= j < i ==> b@[j] != SEPARATOR,
        decreases b.len() - i,
    {
        if b[i] == SEPARATOR {
            proof {
                lemma_first_index_is(b@, SEPARATOR, i as int);
                assert(b@.contains(SEPARATOR));
            }
            return Some(i);
        }
        i = i + 1;
    }
    proof {
        if b@.contains(SEPARATOR) {
            let k = choose|k: int| 0 <= k < b@.len() && b@[k] == SEPARATOR;
            assert(b@[k] != SEPARATOR);
        }
    }
    None
}

/// The position of the last separator in `b`.
fn find_last_separator(b: &[u8]) -> (r: Option<usize>)
    ensures
        r is Some <==> b@.contains(SEPARATOR),
        r matches Some(i) ==> i == last_index(b@, SEPARATOR) && i < b@.len() && b@[i as int]
            == SEPARATOR,
{
    let mut i: usize = b.len();
    while i > 0
        invariant
            i <= b.len(),
            forall|j: int| i <= j < b@.len() ==> b@[j] != SEPARATOR,
        decreases i,
    {
        if b[i - 1] == SEPARATOR {
            proof {
                lemma_last_index_is(b@, SEPARATOR, i - 1);
                assert(b@.contains(SEPARATOR));
            }
            return Some(i - 1);
        }
        i = i - 1;
    }
    proof {
        if b@.contains(SEPARATOR) {
            let k = choose|k: int| 0 <= k < b@.len() && b@[k] == SEPARATOR;
            assert(b@[k] != SEPARATOR);
        }
    }
    None
}

/// A pair of a key and a value that is attached to documents.
#[derive(Clone, Debug, Hash, PartialEq, Eq, PartialOrd, Ord)]
pub struct Label {
    key: String,
    value: String,
}

impl View for Label {
    type V = LabelModel;

    closed spec fn view(&self) -> LabelModel {
        LabelModel { key: text_bytes(self.key@), value: text_bytes(self.value@) }
    }
}

impl Label {
    /// A label of key `k` and value `v`. A key that holds the separator is
    /// refused.
    pub fn new(k: &str, v: &str) -> (r: Result<Label, McError>)
        ensures
            r is Ok <==> !text_bytes(k@).contains(SEPARATOR),
            r matches Ok(l) ==> l@ == (LabelModel {
                key: text_bytes(k@),
                value: text_bytes(v@),
            }) && l@.well_formed(),
            r matches Err(e) ==> e == McError::InvalidLabel,
    {
        match find_first_separator(k.as_bytes()) {
            Some(_) => Err(McError::InvalidLabel),
            None => {
                proof {
                    vstd::utf8::encode_utf8_valid_utf8(k@);
                    vstd::utf8::encode_utf8_valid_utf8(v@);
                }
                Ok(Label { key: k.to_owned(), value: v.to_owned() })
            },
        }
    }

    /// The key.
    pub fn key(&self) -> (k: &str)
        ensures
            text_bytes(k@) == self@.key,
    {
        self.key.as_str()
    }

    /// The value.
    pub fn value(&self) -> (v: &str)
        ensures
            text_bytes(v@) == self@.value,
    {
        self.value.as_str()
    }

    /// Key and value are always text.
    pub proof fn lemma_is_text(&self)
        ensures
            valid_utf8(self@.key),
            valid_utf8(self@.value),
            self@.well_formed() <==> !self@.key.contains(SEPARATOR),
    {
        vstd::utf8::encode_utf8_valid_utf8(self.key@);
        vstd::utf8::encode_utf8_valid_utf8(self.value@);
    }

    /// Whether the key is free of the separator.
    pub fn is_well_formed(&self) -> (b: bool)
        ensures
            b == self@.well_formed(),
    {
        proof {
            self.lemma_is_text();
        }
        find_first_separator(self.key.as_str().as_bytes()).is_none()
    }

    /// Exchanges key and value.
    pub fn swap_key_value(&mut self)
        ensures
            final(self)@ == old(self)@.swapped(),
    {
        std::mem::swap(&mut self.key, &mut self.value)
    }

    /// The label's key in the key-first index: key, separator, value.
    pub fn as_bytes(&self) -> (b: Vec<u8>)
        ensures
            b@ == self@.forward(),
    {
        let mut b: Vec<u8> = Vec::new();
        b.extend_from_slice(self.key.as_str().as_bytes());
        b.push(SEPARATOR);
        b.extend_from_slice(self.value.as_str().as_bytes());
        proof {
            assert(b@ =~= self@.forward());
        }
        b
    }

    /// The label's key in the value-first index: value, separator, key.
    pub fn as_bytes_rev(&self) -> (b: Vec<u8>)
        ensures
            b@ == self@.reverse(),
    {
        let mut b: Vec<u8> = Vec::new();
        b.extend_from_slice(self.value.as_str().as_bytes());
        b.push(SEPARATOR);
        b.extend_from_slice(self.key.as_str().as_bytes());
        proof {
            assert(b@ =~= self@.reverse());
        }
        b
    }

    /// Reads a label from a key of the key-first index.
    ///
    /// Bytes that are not UTF-8 give `Format`; text without a separator gives
    /// `InvalidLabel`.
    pub fn from_bytes(s: &[u8]) -> (r: Result<Label, McError>)
        ensures
            match parse_forward(s@) {
                Ok(m) => r matches Ok(l) && l@ == m && m.well_formed(),
                Err(e) => r == Err::<Label, McError>(e),
            },
    {
        if utf8_text(s).is_none() {
            return Err(McError::Format);
        }
        let found = find_first_separator(s);
        match found {
            None => Err(McError::InvalidLabel),
            Some(i) => {
                let n = s.len();
                proof {
                    lemma_split_at_separator(s@, i as int);
                    lemma_forward_of_parse_forward(s@);
                }
                let k = utf8_text(slice_subrange(s, 0, i)).unwrap();
                let v = utf8_text(slice_subrange(s, i + 1, n)).unwrap();
                Ok(Label { key: k.to_owned(), value: v.to_owned() })
            },
        }
    }

    /// Reads a label from a key of the value-first index.
    ///
    /// Bytes that are not UTF-8 give `Format`; text without a separator gives
    /// `InvalidLabel`.
    pub fn from_bytes_rev(s: &[u8]) -> (r: Result<Label, McError>)
        ensures
            match parse_reverse(s@) {
                Ok(m) => r matches Ok(l) && l@ == m && m.well_formed(),
                Err(e) => r == Err::<Label, McError>(e),
            },
    {
        if utf8_text(s).is_none() {
            return Err(McError::Format);
        }
        let found = find_last_separator(s);
        match found {
            None => Err(McError::InvalidLabel),
            Some(i) => {
                let n = s.len();
                proof {
                    lemma_split_at_separator(s@, i as int);
                    lemma_reverse_of_parse_reverse(s@);
                }
                let v = utf8_text(slice_subrange(s, 0, i)).unwrap();
                let k = utf8_text(slice_subrange(s, i + 1, n)).unwrap();
                Ok(Label { key: k.to_owned(), value: v.to_owned() })
            },
        }
    }

    /// The label as text: key, `=`, value.
    pub fn to_text(&self) -> (text: String)
        ensures
            text_bytes(text@) == self@.forward(),
    {
        let b = self.as_bytes();
        proof {
            self.lemma_is_text();
            lemma_forms_are_text(self@);
        }
        utf8_text(b.as_slice()).unwrap().to_owned()
    }

    /// A copy of this label.
    pub fn duplicate(&self) -> (l: Label)
        ensures
            l@ == self@,
    {
        Label { key: self.key.clone(), value: self.value.clone() }
    }

    /// Whether two labels have the same key and the same value.
    pub fn same_as(&self, other: &Label) -> (b: bool)
        ensures
            b == (self@ == other@),
    {
        let b = bytes_equal(self.key.as_str().as_bytes(), other.key.as_str().as_bytes())
            && bytes_equal(self.value.as_str().as_bytes(), other.value.as_str().as_bytes());
        b
    }
}

impl Sortable for Label {
    type Model = LabelModel;

    open spec fn model(&self) -> LabelModel {
        self@
    }

    fn less(&self, other: &Self) -> (b: bool) {
        let k1 = self.key.as_str().as_bytes();
        let k2 = other.key.as_str().as_bytes();
        if bytes_less(k1, k2) {
            true
        } else if bytes_equal(k1, k2) {
            bytes_less(self.value.as_str().as_bytes(), other.value.as_str().as_bytes())
        } else {
            false
        }
    }
}

} // verus!
