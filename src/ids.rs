use std::cmp::Ordering;
use std::marker::PhantomData;

use vstd::prelude::*;
use vstd::string::{StringExecFns, StringSliceAdditionalSpecFns};
use vstd::utf8::{encode_scalar, encode_utf8, is_ascii_chars, is_ascii_chars_encode_utf8};

use crate::untyped_ids::{
    ascii_bytes, body_result, decode_body, id_cmp, is_dnssec_input, is_id_text, untyped_result,
    untyped_text, UntypedId,
};

verus! {

/// Why a text is not an identifier.
#[derive(Debug, Clone, Copy, PartialEq, Eq, Structural)]
pub enum IdParseError {
    /// The text does not start with the entity's prefix.
    InvalidPrefix,
    /// The divider or the body is malformed.
    Unparseable,
}

/// A prefix that can tag identifiers: non-empty, without the divider `.`.
pub open spec fn is_prefix_text(p: Seq<char>) -> bool {
    p.len() > 0 && !p.contains('.')
}

/// The UTF-8 bytes of a text.
pub open spec fn utf8_bytes(s: Seq<char>) -> Seq<u8> {
    encode_utf8(s)
}

/// A kind of document whose identifiers carry a prefix of its own.
pub trait Entity {
    /// The prefix, as text. An entity states it where it implements the trait:
    /// the empty default cannot meet the contract of `prefix`.
    closed spec fn spec_prefix() -> Seq<char> {
        Seq::empty()
    }

    /// The prefix that the text form of this entity's identifiers starts with.
    fn prefix() -> (r: &'static str)
        ensures
            r@ == Self::spec_prefix(),
            is_prefix_text(r@),
    ;
}

/// An identifier tagged with the entity `T` it belongs to.
#[derive(Debug, Hash)]
pub struct Id<T> {
    inner: UntypedId,
    phantom: PhantomData<T>,
}

/// Produces fresh identifiers from the clock and a random source.
#[derive(Debug, Clone, Default)]
pub struct IdGen {}

impl<T> View for Id<T> {
    type V = UntypedId;

    closed spec fn view(&self) -> UntypedId {
        self.inner
    }
}

/// The text form of an identifier tagged with `prefix`: the prefix, the divider
/// and the untyped text form.
pub open spec fn typed_text(prefix: Seq<char>, id: UntypedId) -> Seq<char> {
    prefix + seq!['.'] + untyped_text(id)
}

/// What reading the bytes `b` as an identifier tagged with the prefix bytes `p` gives.
pub open spec fn typed_result(p: Seq<u8>, b: Seq<u8>) -> Result<UntypedId, IdParseError> {
    if b.len() < p.len() + 1 || b.subrange(0, p.len() as int) != p {
        Err(IdParseError::InvalidPrefix)
    } else if b[p.len() as int] != 46u8 {
        Err(IdParseError::Unparseable)
    } else {
        body_result(b.subrange(p.len() + 1int, b.len() as int))
    }
}

/// The bytes of a well-formed typed text: the prefix, the divider and the body.
pub open spec fn typed_bytes_shape(b: Seq<u8>, p: Seq<u8>, u: UntypedId) -> bool {
    &&& b.len() > p.len()
    &&& b.subrange(0, p.len() as int) == p
    &&& b[p.len() as int] == 46u8
    &&& b.subrange(p.len() + 1int, b.len() as int) == ascii_bytes(untyped_text(u))
    &&& ascii_bytes(untyped_text(u)).len() == 26
}

proof fn lemma_utf8_concat(a: Seq<char>, b: Seq<char>)
    ensures
        encode_utf8(a + b) == encode_utf8(a) + encode_utf8(b),
    decreases a.len(),
{
    if a.len() == 0 {
        assert(a + b =~= b);
        assert(encode_utf8(a) + encode_utf8(b) =~= encode_utf8(b));
    } else {
        assert((a + b)[0] == a[0]);
        assert((a + b).drop_first() =~= a.drop_first() + b);
        lemma_utf8_concat(a.drop_first(), b);
        assert(encode_utf8(a + b) =~= encode_utf8(a) + encode_utf8(b));
    }
}

proof fn lemma_typed_bytes(src: &str, prefix: Seq<char>, u: UntypedId)
    requires
        src@ == typed_text(prefix, u),
        is_id_text(untyped_text(u)),
    ensures
        typed_bytes_shape(src.spec_bytes(), utf8_bytes(prefix), u),
{
    let t = untyped_text(u);
    let tail = seq!['.'] + t;
    assert(src@ =~= prefix + tail);
    lemma_utf8_concat(prefix, tail);
    assert(is_ascii_chars(tail));
    is_ascii_chars_encode_utf8(tail);
    let b = src.spec_bytes();
    let p = utf8_bytes(prefix);
    assert(encode_utf8(tail) =~= seq![46u8] + ascii_bytes(t));
    assert(b =~= p + seq![46u8] + ascii_bytes(t));
    assert(b.subrange(0, p.len() as int) =~= p);
    assert(b.subrange(p.len() + 1int, b.len() as int) =~= ascii_bytes(t));
}

/// Some byte of `b` after the prefix bytes `p` and the divider is no symbol of
/// the alphabet.
pub open spec fn body_has_non_symbol(p: Seq<u8>, b: Seq<u8>) -> bool {
    exists|i: int| p.len() + 1 <= i < b.len() && !is_dnssec_input(#[trigger] b[i])
}

/// The text made of `prefix`, the divider and `body`.
pub open spec fn typed_join(prefix: Seq<char>, body: Seq<char>) -> Seq<char> {
    prefix + seq!['.'] + body
}

proof fn lemma_wide_char(c: char)
    requires
        !('\0' <= c && c <= '\u{7f}'),
    ensures
        (c as u32) > 0x7f,
{
}

proof fn lemma_utf8_non_ascii(t: Seq<char>)
    requires
        !is_ascii_chars(t),
    ensures
        exists|i: int| 0 <= i < encode_utf8(t).len() && encode_utf8(t)[i] >= 128,
    decreases t.len(),
{
    let c = t[0];
    let rest = t.drop_first();
    let head = encode_scalar(c as u32);
    assert(encode_utf8(t) == head + encode_utf8(rest));
    if !('\0' <= c && c <= '\u{7f}') {
        let x = c as u32;
        lemma_wide_char(c);
        assert((0xC0u8 | ((x >> 6u32) & 0x1Fu32) as u8) >= 0xC0u8) by (bit_vector);
        assert((0xE0u8 | ((x >> 12u32) & 0x0Fu32) as u8) >= 0xC0u8) by (bit_vector);
        assert((0xF0u8 | ((x >> 18u32) & 0x7u32) as u8) >= 0xC0u8) by (bit_vector);
        assert(head[0] >= 128);
        assert((head + encode_utf8(rest))[0] == head[0]);
    } else {
        assert(!is_ascii_chars(rest)) by {
            let k = choose|k: int| 0 <= k < t.len() && !('\0' <= #[trigger] t[k] && t[k] <= '\u{7f}');
            assert(k != 0);
            assert(rest[k - 1] == t[k]);
        }
        lemma_utf8_non_ascii(rest);
        let i = choose|i: int| 0 <= i < encode_utf8(rest).len() && encode_utf8(rest)[i] >= 128;
        assert((head + encode_utf8(rest))[head.len() + i] == encode_utf8(rest)[i]);
    }
}

proof fn lemma_join_bytes(prefix: Seq<char>, t: Seq<char>)
    ensures
        encode_utf8(typed_join(prefix, t)) == utf8_bytes(prefix) + seq![46u8] + encode_utf8(t),
{
    lemma_utf8_concat(prefix + seq!['.'], t);
    lemma_utf8_concat(prefix, seq!['.']);
    assert(is_ascii_chars(seq!['.']));
    is_ascii_chars_encode_utf8(seq!['.']);
    assert(encode_utf8(seq!['.']) =~= seq![46u8]);
}

/// Whether `b` starts with the bytes `p`.
fn starts_with(b: &[u8], p: &[u8]) -> (r: bool)
    requires
        p@.len() < b@.len(),
    ensures
        r == (b@.subrange(0, p@.len() as int) == p@),
{
    let mut i: usize = 0;
    while i < p.len()
        invariant
            0 <= i <= p@.len(),
            p@.len() < b@.len(),
            forall|j: int| 0 <= j < i ==> b@[j] == p@[j],
        decreases p@.len() - i,
    {
        if b[i] != p[i] {
            assert(b@.subrange(0, p@.len() as int)[i as int] != p@[i as int]);
            return false;
        }
        i = i + 1;
    }
    assert(b@.subrange(0, p@.len() as int) =~= p@);
    true
}

/// Texts that are not the text form of an identifier tagged `p` are refused: a
/// text too short for the prefix and the divider, or with another prefix, with
/// `InvalidPrefix`; a wrong divider, or a body cut short or too long, with
/// `Unparseable`.
pub proof fn lemma_typed_rejections(p: Seq<u8>, b: Seq<u8>)
    ensures
        b.len() < p.len() + 1 ==> typed_result(p, b) == Err::<UntypedId, IdParseError>(
            IdParseError::InvalidPrefix,
        ),
        b.len() >= p.len() + 1 && b.subrange(0, p.len() as int) != p ==> typed_result(p, b) == Err::<
            UntypedId,
            IdParseError,
        >(IdParseError::InvalidPrefix),
        b.len() >= p.len() + 1 && b.subrange(0, p.len() as int) == p && b[p.len() as int] != 46u8
            ==> typed_result(p, b) == Err::<UntypedId, IdParseError>(IdParseError::Unparseable),
        b.len() >= p.len() + 1 && b.len() != p.len() + 27 ==> typed_result(p, b) is Err,
{
}

impl<T> Id<T> {
    /// An identifier nominally at time zero, whose random part is derived from `entity`.
    pub fn hashed(entity: &str) -> (r: Id<T>)
        ensures
            r@ == UntypedId::hashed_spec(entity@),
    {
        let inner = UntypedId::hashed(entity);
        Id { inner, phantom: PhantomData }
    }

    /// Tags an untyped identifier.
    pub fn from_untyped(src: UntypedId) -> (r: Id<T>)
        ensures
            r@ == src,
    {
        Id { inner: src, phantom: PhantomData }
    }

    /// The identifier without its tag.
    pub fn untyped(&self) -> (r: UntypedId)
        ensures
            r == self@,
    {
        self.inner
    }

    fn to_bytes(&self) -> (r: Vec<u8>)
        ensures
            r@ == crate::untyped_ids::id_bytes(self@),
    {
        self.inner.to_bytes()
    }
}

impl<T: Entity> Id<T> {
    /// The text form: the entity's prefix, the divider `.` and twenty-six symbols.
    pub fn to_string(&self) -> (r: String)
        ensures
            r@ == typed_text(T::spec_prefix(), self@),
            is_id_text(untyped_text(self@)),
            r@.subrange(0, T::spec_prefix().len() as int) == T::spec_prefix(),
            r@[T::spec_prefix().len() as int] == '.',
    {
        let prefix = T::prefix();
        let body = self.inner.to_string();
        let mut s = String::new();
        s.append(prefix);
        proof {
            reveal_strlit(".");
        }
        s.append(".");
        s.append(body.as_str());
        assert(s@ =~= typed_text(T::spec_prefix(), self@));
        assert(s@.subrange(0, T::spec_prefix().len() as int) =~= T::spec_prefix());
        s
    }

    /// Reads the text form of an identifier of this entity.
    pub fn parse(src: &str) -> (r: Result<Id<T>, IdParseError>)
        ensures
            r matches Ok(id) ==> typed_result(utf8_bytes(T::spec_prefix()), src.spec_bytes())
                == Ok::<UntypedId, IdParseError>(id@),
            r matches Err(e) ==> typed_result(utf8_bytes(T::spec_prefix()), src.spec_bytes())
                == Err::<UntypedId, IdParseError>(e),
            forall|u: UntypedId|
                src@ == #[trigger] typed_text(T::spec_prefix(), u) && is_id_text(untyped_text(u))
                    ==> (r matches Ok(id) && id@ == u),
            body_has_non_symbol(utf8_bytes(T::spec_prefix()), src.spec_bytes()) ==> r is Err,
            forall|t: Seq<char>|
                src@ == #[trigger] typed_join(T::spec_prefix(), t) ==> ((r is Ok) == (untyped_result(
                    t,
                ) is Ok) && (r matches Ok(id) ==> untyped_result(t) == Ok::<UntypedId, IdParseError>(
                    id@,
                ))),
    {
        let prefix = T::prefix();
        let p = prefix.as_bytes();
        let b = src.as_bytes();
        proof {
            assert forall|u: UntypedId|
                src@ == #[trigger] typed_text(T::spec_prefix(), u) && is_id_text(
                    untyped_text(u),
                ) implies typed_bytes_shape(b@, p@, u) by {
                lemma_typed_bytes(src, T::spec_prefix(), u);
            }
            assert forall|t: Seq<char>| src@ == #[trigger] typed_join(T::spec_prefix(), t) implies {
                &&& b@.len() > p@.len()
                &&& b@.subrange(0, p@.len() as int) == p@
                &&& b@[p@.len() as int] == 46u8
            } by {
                lemma_join_bytes(T::spec_prefix(), t);
                assert(b@ =~= p@ + seq![46u8] + encode_utf8(t));
                assert(b@.subrange(0, p@.len() as int) =~= p@);
            }
        }
        if b.len() <= p.len() {
            return Err(IdParseError::InvalidPrefix);
        }
        if !starts_with(b, p) {
            return Err(IdParseError::InvalidPrefix);
        }
        if b[p.len()] != 46u8 {
            return Err(IdParseError::Unparseable);
        }
        let body = vstd::slice::slice_subrange(b, p.len() + 1, b.len());
        let parsed = decode_body(body);
        proof {
            let start = p@.len() + 1;
            if body_has_non_symbol(p@, b@) {
                let i = choose|i: int| start <= i < b@.len() && !is_dnssec_input(#[trigger] b@[i]);
                assert(body@[i - start] == b@[i]);
            }
            assert forall|t: Seq<char>| src@ == #[trigger] typed_join(T::spec_prefix(), t) implies ((
            parsed is Ok) == (untyped_result(t) is Ok) && (parsed matches Ok(u)
                ==> untyped_result(t) == Ok::<UntypedId, IdParseError>(u))) by {
                lemma_join_bytes(T::spec_prefix(), t);
                let bt = encode_utf8(t);
                assert(b@ =~= p@ + seq![46u8] + bt);
                assert(body@ =~= bt);
                if is_ascii_chars(t) {
                    is_ascii_chars_encode_utf8(t);
                    assert(bt =~= ascii_bytes(t));
                } else {
                    lemma_utf8_non_ascii(t);
                    let i = choose|i: int| 0 <= i < bt.len() && bt[i] >= 128;
                    assert(!is_dnssec_input(body@[i]));
                }
            }
        }
        match parsed {
            Ok(u) => Ok(Id::from_untyped(u)),
            Err(e) => Err(e),
        }
    }
}

impl<T> PartialEq for Id<T> {
    fn eq(&self, other: &Id<T>) -> (r: bool) {
        self.inner == other.inner
    }
}

impl<T> vstd::std_specs::cmp::PartialEqSpecImpl for Id<T> {
    open spec fn obeys_eq_spec() -> bool {
        true
    }

    open spec fn eq_spec(&self, other: &Id<T>) -> bool {
        self@ == other@
    }
}

impl<T> Eq for Id<T> {

}

impl<T> PartialOrd for Id<T> {
    fn partial_cmp(&self, other: &Id<T>) -> (r: Option<Ordering>) {
        self.inner.partial_cmp(&other.inner)
    }
}

impl<T> vstd::std_specs::cmp::PartialOrdSpecImpl for Id<T> {
    open spec fn obeys_partial_cmp_spec() -> bool {
        true
    }

    open spec fn partial_cmp_spec(&self, other: &Id<T>) -> Option<Ordering> {
        Some(id_cmp(self@, other@))
    }
}

impl<T> Clone for Id<T> {
    fn clone(&self) -> (r: Id<T>)
        ensures
            r@ == self@,
    {
        Id { inner: self.inner, phantom: PhantomData }
    }
}

impl<T> Copy for Id<T> {

}

impl<T: Entity> std::str::FromStr for Id<T> {
    type Err = IdParseError;

    /// Reads the text form of an identifier of this entity, as `Id::parse` does.
    fn from_str(src: &str) -> (r: Result<Id<T>, IdParseError>)
        ensures
            r matches Ok(id) ==> typed_result(utf8_bytes(T::spec_prefix()), src.spec_bytes())
                == Ok::<UntypedId, IdParseError>(id@),
            r matches Err(e) ==> typed_result(utf8_bytes(T::spec_prefix()), src.spec_bytes())
                == Err::<UntypedId, IdParseError>(e),
            forall|u: UntypedId|
                src@ == #[trigger] typed_text(T::spec_prefix(), u) && is_id_text(untyped_text(u))
                    ==> (r matches Ok(id) && id@ == u),
            body_has_non_symbol(utf8_bytes(T::spec_prefix()), src.spec_bytes()) ==> r is Err,
            forall|t: Seq<char>|
                src@ == #[trigger] typed_join(T::spec_prefix(), t) ==> ((r is Ok) == (untyped_result(
                    t,
                ) is Ok) && (r matches Ok(id) ==> untyped_result(t) == Ok::<UntypedId, IdParseError>(
                    id@,
                ))),
    {
        Id::parse(src)
    }
}

impl IdGen {
    /// A generator.
    pub fn new() -> (r: IdGen) {
        IdGen {  }
    }

    /// A fresh identifier for the entity `T`, from the clock and a random part.
    pub fn generate<T>(&self) -> (r: Id<T>)
        ensures
            exists|nanos: Option<u128>, random: u64|
                r@ == #[trigger] UntypedId::from_clock_spec(nanos, random),
    {
        let inner = self.untyped();
        Id { inner, phantom: PhantomData }
    }
}

impl UntypedId {
    /// Tags this identifier with the entity `T`.
    pub fn typed<T>(&self) -> (r: Id<T>)
        ensures
            r@ == *self,
    {
        Id::from_untyped(*self)
    }
}

} // verus!
