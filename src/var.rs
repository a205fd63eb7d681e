use crate::error::DeError;
use crate::event::DeEvent;
use crate::reader::{
    names_of, pairs_view, skip_outcome, struct_outcome, tuple_outcome, Deserializer,
};
use vstd::prelude::*;
use vstd::slice::slice_to_vec;
use vstd::string::StringSliceAdditionalSpecFns;

verus! {

/// The marker that opens the declared name of a variant whose value is a bare
/// primitive rather than a structured value.
pub const PRIMITIVE_PREFIX: &'static str = "$primitive=";

/// The marker's bytes.
pub open spec fn prefix_bytes() -> Seq<u8> {
    PRIMITIVE_PREFIX.spec_bytes()
}

/// Whether a declared name carries the primitive marker.
pub open spec fn is_primitive(v: Seq<u8>) -> bool {
    prefix_bytes().is_prefix_of(v)
}

/// A marked name with the marker taken off.
pub open spec fn suffix_of(v: Seq<u8>) -> Seq<u8> {
    v.subrange(prefix_bytes().len() as int, v.len() as int)
}

/// The marked names among the declared ones, in declaration order.
pub open spec fn primitive_index(declared: Seq<Seq<u8>>) -> Seq<Seq<u8>> {
    declared.filter(|v: Seq<u8>| is_primitive(v))
}

/// The first marked name whose suffix is exactly `text`.
pub open spec fn find_primitive(index: Seq<Seq<u8>>, text: Seq<u8>) -> Option<Seq<u8>>
    decreases index.len(),
{
    if index.len() == 0 {
        None
    } else if suffix_of(index[0]) == text {
        Some(index[0])
    } else {
        find_primitive(index.drop_first(), text)
    }
}

/// The token that names the variant, and whether it came from a text node, for
/// a list of declared names and the event at the resolution point.
pub open spec fn resolve(declared: Seq<Seq<u8>>, ev: Option<DeEvent>) -> Result<(Seq<u8>, bool), DeError> {
    match ev {
        Some(DeEvent::Text(t)) => Ok(
            (
                match find_primitive(primitive_index(declared), t@) {
                    Some(v) => v,
                    None => t@,
                },
                true,
            ),
        ),
        Some(DeEvent::Start(n)) => Ok((n@, false)),
        _ => Err(DeError::Unsupported),
    }
}

/// The token that names a resolved variant, to be decoded as a string.
pub struct VariantName {
    /// The raw bytes of the name: a marked primitive name, a text node's
    /// bytes, or an element's local name.
    pub name: Vec<u8>,
    /// Whether the name came from a text node, where a marked primitive name
    /// may stand; false for an element's name, whose content is structured.
    pub primitive_aware: bool,
}

/// Identifies which variant the next event refers to.
pub struct EnumAccess<'a> {
    pub de: &'a mut Deserializer,
    /// The declared variant names.
    pub variants: &'static [&'static str],
    /// The declared names that carry the primitive marker, in order.
    pub primitive_variants: Vec<&'static [u8]>,
}

/// Whether a byte string starts with another.
fn starts_with(v: &[u8], p: &[u8]) -> (r: bool)
    ensures
        r == p@.is_prefix_of(v@),
{
    if p.len() > v.len() {
        return false;
    }
    let mut i: usize = 0;
    while i < p.len()
        invariant
            p@.len() <= v@.len(),
            i <= p@.len(),
            p@.subrange(0, i as int) == v@.subrange(0, i as int),
        decreases p.len() - i,
    {
        if p[i] != v[i] {
            return false;
        }
        assert(p@.subrange(0, i + 1) == p@.subrange(0, i as int).push(p@[i as int]));
        assert(v@.subrange(0, i + 1) == v@.subrange(0, i as int).push(v@[i as int]));
        i = i + 1;
    }
    assert(p@ == p@.subrange(0, p@.len() as int));
    true
}

/// Whether `text` equals `v` with its first `skip` bytes taken off.
fn suffix_equals(v: &[u8], skip: usize, text: &[u8]) -> (r: bool)
    requires
        skip <= v@.len(),
    ensures
        r == (v@.subrange(skip as int, v@.len() as int) == text@),
{
    if v.len() - skip != text.len() {
        return false;
    }
    let mut i: usize = 0;
    while i < text.len()
        invariant
            skip + text@.len() == v@.len(),
            skip + text.len() == v.len(),
            i <= text@.len(),
            v@.subrange(skip as int, skip + i) == text@.subrange(0, i as int),
        decreases text.len() - i,
    {
        if v[skip + i] != text[i] {
            assert(v@.subrange(skip as int, v@.len() as int)[i as int] != text@[i as int]);
            return false;
        }
        assert(v@.subrange(skip as int, skip + i + 1) == v@.subrange(skip as int, skip + i).push(
            v@[skip + i],
        ));
        assert(text@.subrange(0, i + 1) == text@.subrange(0, i as int).push(text@[i as int]));
        i = i + 1;
    }
    assert(text@ == text@.subrange(0, text@.len() as int));
    true
}

impl<'a> EnumAccess<'a> {
    /// The bytes of each entry of the primitive index.
    pub open spec fn primitive_view(&self) -> Seq<Seq<u8>> {
        self.primitive_variants@.map_values(|b: &[u8]| b@)
    }

    /// The primitive index is the declared list's marked names, in order.
    pub open spec fn wf(&self) -> bool {
        self.primitive_view() == primitive_index(names_of(self.variants@))
    }

    /// Binds the cursor and the declared variant names, and builds the index
    /// of the names that carry the primitive marker.
    pub fn new(de: &'a mut Deserializer, variants: &'static [&'static str]) -> (r: Self)
        ensures
            r.wf(),
            r.variants == variants,
            *r.de == *old(de),
            *final(r.de) == *final(de),
    {
        let prefix = PRIMITIVE_PREFIX.as_bytes();
        let mut primitive_variants: Vec<&'static [u8]> = Vec::new();
        let mut i: usize = 0;
        while i < variants.len()
            invariant
                i <= variants@.len(),
                prefix@ == prefix_bytes(),
                primitive_variants@.map_values(|b: &[u8]| b@) == primitive_index(
                    names_of(variants@.subrange(0, i as int)),
                ),
            decreases variants.len() - i,
        {
            let v: &'static [u8] = variants[i].as_bytes();
            let ghost before = primitive_variants@;
            assert(names_of(variants@.subrange(0, i + 1)) == names_of(
                variants@.subrange(0, i as int),
            ).push(v@));
            proof {
                names_of(variants@.subrange(0, i as int)).lemma_filter_push(
                    v@,
                    |v: Seq<u8>| is_primitive(v),
                );
            }
            if starts_with(v, prefix) {
                primitive_variants.push(v);
                assert(primitive_variants@.map_values(|b: &[u8]| b@) == before.map_values(
                    |b: &[u8]| b@,
                ).push(v@));
            }
            i = i + 1;
        }
        assert(variants@.subrange(0, variants@.len() as int) == variants@);
        EnumAccess { de, variants, primitive_variants }
    }

    /// The first marked name whose suffix equals `text`.
    fn find_primitive_variant(&self, text: &[u8]) -> (r: Option<&'static [u8]>)
        requires
            self.wf(),
        ensures
            match find_primitive(self.primitive_view(), text@) {
                Some(v) => r matches Some(b) && b@ == v,
                None => r is None,
            },
    {
        let skip = PRIMITIVE_PREFIX.as_bytes().len();
        let ghost index = self.primitive_view();
        assert(index.subrange(0, index.len() as int) == index);
        let mut i: usize = 0;
        while i < self.primitive_variants.len()
            invariant
                index == self.primitive_view(),
                i <= index.len(),
                skip == prefix_bytes().len(),
                self.wf(),
                find_primitive(index, text@) == find_primitive(
                    index.subrange(i as int, index.len() as int),
                    text@,
                ),
            decreases self.primitive_variants.len() - i,
        {
            let v = self.primitive_variants[i];
            let ghost rest = index.subrange(i as int, index.len() as int);
            assert(rest.drop_first() == index.subrange(i + 1, index.len() as int));
            assert(rest[0] == v@);
            proof {
                assert(primitive_index(names_of(self.variants@)).contains(v@));
                lemma_index_entries_marked(names_of(self.variants@), v@);
            }
            if suffix_equals(v, skip, text) {
                return Some(v);
            }
            i = i + 1;
        }
        None
    }

    /// Peeks at the next event and resolves which declared variant it names,
    /// without consuming it. A text node names a marked primitive variant
    /// when its bytes equal that variant's name without the marker, and names
    /// itself otherwise; a start tag names the element's local name.
    pub fn variant(self) -> (r: Result<(VariantName, VariantAccess<'a>), DeError>)
        requires
            self.wf(),
        ensures
            match resolve(names_of(self.variants@), old(self.de).peek_spec()) {
                Ok((name, aware)) => r matches Ok((v, access)) && v.name@ == name
                    && v.primitive_aware == aware && *access.de == *old(self.de)
                    && *final(access.de) == *final(self.de),
                Err(e) => r matches Err(x) && x == e && *final(self.de) == *old(self.de),
            },
    {
        let found: Option<(Vec<u8>, bool)> = match self.de.peek() {
            Some(DeEvent::Text(t)) => match self.find_primitive_variant(t.as_slice()) {
                Some(v) => Some((slice_to_vec(v), true)),
                None => Some((t.clone(), true)),
            },
            Some(DeEvent::Start(n)) => Some((n.clone(), false)),
            _ => None,
        };
        match found {
            Some((name, primitive_aware)) => Ok(
                (VariantName { name, primitive_aware }, VariantAccess { de: self.de }),
            ),
            None => Err(DeError::Unsupported),
        }
    }
}

/// Every entry of the primitive index carries the marker.
proof fn lemma_index_entries_marked(declared: Seq<Seq<u8>>, v: Seq<u8>)
    requires
        primitive_index(declared).contains(v),
    ensures
        is_primitive(v),
{
    broadcast use vstd::seq_lib::group_filter_ensures;

    assert(declared.filter(|v: Seq<u8>| is_primitive(v)).contains(v));
}

/// Reads the content of a resolved variant, in the shape its declaration
/// gives.
pub struct VariantAccess<'a> {
    pub de: &'a mut Deserializer,
}

impl<'a> VariantAccess<'a> {
    /// Whether the next event is one that resolution accepts.
    pub open spec fn at_variant(&self) -> bool {
        match self.de.peek_spec() {
            Some(DeEvent::Text(_)) => true,
            Some(DeEvent::Start(_)) => true,
            _ => false,
        }
    }

    /// A variant without content: consumes the text node that named it, or
    /// the element that named it up to and including its closing tag.
    pub fn unit_variant(self) -> (r: Result<(), DeError>)
        requires
            self.at_variant(),
        ensures
            final(self.de).events() == old(self.de).events(),
            match old(self.de).peek_spec() {
                Some(DeEvent::Start(n)) => (r, final(self.de).pos()) == skip_outcome(
                    old(self.de).events(),
                    old(self.de).pos() + 1,
                    n@,
                ),
                _ => r is Ok && final(self.de).pos() == old(self.de).pos() + 1,
            },
    {
        match self.de.next() {
            Some(DeEvent::Start(n)) => self.de.read_to_end(n.as_slice()),
            _ => Ok(()),
        }
    }

    /// A variant of `len` positional items: reads the element that named it,
    /// with one item per text node or leaf element, up to its closing tag.
    pub fn tuple_variant(self, len: usize) -> (r: Result<Vec<Vec<u8>>, DeError>)
        ensures
            final(self.de).events() == old(self.de).events(),
            match tuple_outcome(old(self.de).events(), old(self.de).pos(), len as nat) {
                Ok((items, k)) => r matches Ok(v) && v@.map_values(|x: Vec<u8>| x@) == items
                    && final(self.de).pos() == k,
                Err(e) => r matches Err(x) && x == e,
            },
    {
        self.de.read_tuple(len)
    }

    /// A variant with named fields: reads the element that named it up to its
    /// closing tag, taking the text of each child element named in `fields`.
    pub fn struct_variant(self, fields: &[&str]) -> (r: Result<Vec<(Vec<u8>, Vec<u8>)>, DeError>)
        ensures
            final(self.de).events() == old(self.de).events(),
            match struct_outcome(old(self.de).events(), old(self.de).pos(), names_of(fields@)) {
                Ok((fs, k)) => r matches Ok(v) && pairs_view(v@) == fs && final(self.de).pos() == k,
                Err(e) => r matches Err(x) && x == e,
            },
    {
        self.de.read_struct(fields)
    }

    /// A variant with a single value: hands the cursor on, unchanged, to the
    /// decoder of that value.
    pub fn newtype_variant(self) -> (r: &'a mut Deserializer)
        ensures
            *r == *old(self.de),
            *final(r) == *final(self.de),
    {
        self.de
    }
}

} // verus!

verus! {

/// A search of the primitive index returns an entry of it whose suffix is the
/// text, and finds one whenever there is one.
pub proof fn lemma_find_primitive(index: Seq<Seq<u8>>, text: Seq<u8>)
    ensures
        find_primitive(index, text) matches Some(m) ==> index.contains(m) && suffix_of(m) == text,
        (exists|i: int| 0 <= i < index.len() && suffix_of(#[trigger] index[i]) == text)
            ==> find_primitive(index, text) is Some,
    decreases index.len(),
{
    if index.len() > 0 {
        lemma_find_primitive(index.drop_first(), text);
        if find_primitive(index.drop_first(), text) is Some {
            let m = find_primitive(index.drop_first(), text)->Some_0;
            assert(index.drop_first().contains(m));
            let k = choose|k: int| 0 <= k < index.drop_first().len() && index.drop_first()[k] == m;
            assert(index[k + 1] == m);
        }
        if exists|i: int| 0 <= i < index.len() && suffix_of(#[trigger] index[i]) == text {
            let i = choose|i: int| 0 <= i < index.len() && suffix_of(#[trigger] index[i]) == text;
            if i > 0 {
                assert(index.drop_first()[i - 1] == index[i]);
            }
        }
    }
}

/// When a declared name carries the marker and its suffix is exactly the
/// text at the resolution point, resolution yields a declared marked name
/// with that suffix, not the raw text.
pub proof fn lemma_text_names_marked_variant(declared: Seq<Seq<u8>>, t: Vec<u8>, k: int)
    requires
        0 <= k < declared.len(),
        is_primitive(declared[k]),
        suffix_of(declared[k]) == t@,
    ensures
        resolve(declared, Some(DeEvent::Text(t))) matches Ok((m, aware)) && aware
            && declared.contains(m) && is_primitive(m) && suffix_of(m) == t@,
{
    broadcast use vstd::seq_lib::group_filter_ensures;

    let index = primitive_index(declared);
    assert(index.contains(declared[k]));
    let i = choose|i: int| 0 <= i < index.len() && index[i] == declared[k];
    assert(suffix_of(index[i]) == t@);
    lemma_find_primitive(index, t@);
    let m = find_primitive(index, t@)->Some_0;
    let j = choose|j: int| 0 <= j < index.len() && index[j] == m;
    assert(index.contains(index[j]));
    declared.lemma_filter_contains_rev(|v: Seq<u8>| is_primitive(v), index[j]);
}

/// With no marked name among the declared ones, a text node names itself.
pub proof fn lemma_text_names_itself(declared: Seq<Seq<u8>>, t: Vec<u8>)
    requires
        forall|i: int| 0 <= i < declared.len() ==> !is_primitive(#[trigger] declared[i]),
    ensures
        resolve(declared, Some(DeEvent::Text(t))) == Ok::<(Seq<u8>, bool), DeError>((t@, true)),
{
    broadcast use vstd::seq_lib::group_filter_ensures;

    let index = primitive_index(declared);
    if index.len() > 0 {
        assert(index.contains(index[0]));
        declared.lemma_filter_contains_rev(|v: Seq<u8>| is_primitive(v), index[0]);
    }
    assert(index.len() == 0);
}

/// A start tag names the element's local name, whatever names are declared.
pub proof fn lemma_start_names_element(declared: Seq<Seq<u8>>, n: Vec<u8>)
    ensures
        resolve(declared, Some(DeEvent::Start(n))) == Ok::<(Seq<u8>, bool), DeError>((n@, false)),
{
}

/// At an event that is neither a text node nor a start tag, or at the end of
/// the input, resolution fails as unsupported.
pub proof fn lemma_other_event_unsupported(declared: Seq<Seq<u8>>, ev: Option<DeEvent>)
    requires
        !(ev matches Some(e) && (e is Text || e is Start)),
    ensures
        resolve(declared, ev) == Err::<(Seq<u8>, bool), DeError>(DeError::Unsupported),
{
}

} // verus!
