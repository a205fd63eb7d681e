use crate::error::DeError;
use crate::event::DeEvent;
use vstd::prelude::*;
use vstd::string::StringSliceAdditionalSpecFns;

verus! {

/// The bytes of each name of a list.
pub open spec fn names_of(names: Seq<&str>) -> Seq<Seq<u8>> {
    names.map_values(|s: &str| s.spec_bytes())
}

/// The text of a leaf element whose opening tag, named `name`, stands just
/// before `i`: an optional text node and the closing tag. On success, also the
/// position after the closing tag.
pub open spec fn leaf_text(ev: Seq<DeEvent>, i: int, name: Seq<u8>) -> Result<(Seq<u8>, int), DeError> {
    if i < 0 || i >= ev.len() {
        Err(DeError::UnexpectedEof)
    } else if ev[i] is End {
        if ev[i].bytes() == name {
            Ok((Seq::empty(), i + 1))
        } else {
            Err(DeError::EndEventMismatch)
        }
    } else if ev[i] is Text {
        if i + 1 >= ev.len() {
            Err(DeError::UnexpectedEof)
        } else if !(ev[i + 1] is End) {
            Err(DeError::UnexpectedEvent)
        } else if ev[i + 1].bytes() == name {
            Ok((ev[i].bytes(), i + 2))
        } else {
            Err(DeError::EndEventMismatch)
        }
    } else {
        Err(DeError::UnexpectedEvent)
    }
}

/// The closing tag named `name` at `i`: the position after it.
pub open spec fn closing(ev: Seq<DeEvent>, i: int, name: Seq<u8>) -> Result<int, DeError> {
    if i < 0 || i >= ev.len() {
        Err(DeError::UnexpectedEof)
    } else if !(ev[i] is End) {
        Err(DeError::UnexpectedEvent)
    } else if ev[i].bytes() == name {
        Ok(i + 1)
    } else {
        Err(DeError::EndEventMismatch)
    }
}

/// The `n` positional items of an element named `name`, from `i` on, and its
/// closing tag. An item is a text node or a leaf element's text.
pub open spec fn tuple_items(ev: Seq<DeEvent>, i: int, name: Seq<u8>, n: nat) -> Result<(Seq<Seq<u8>>, int), DeError>
    decreases n,
{
    if n == 0 {
        match closing(ev, i, name) {
            Ok(k) => Ok((Seq::empty(), k)),
            Err(e) => Err(e),
        }
    } else if i < 0 || i >= ev.len() {
        Err(DeError::UnexpectedEof)
    } else {
        let item: Result<(Seq<u8>, int), DeError> = match ev[i] {
            DeEvent::Text(t) => Ok((t@, i + 1)),
            DeEvent::Start(f) => leaf_text(ev, i + 1, f@),
            _ => Err(DeError::UnexpectedEvent),
        };
        match item {
            Ok((t, k)) => match tuple_items(ev, k, name, (n - 1) as nat) {
                Ok((rest, e)) => Ok((seq![t] + rest, e)),
                Err(e) => Err(e),
            },
            Err(e) => Err(e),
        }
    }
}

/// The fields of an element named `name`, from `i` on, and its closing tag:
/// each child element named in `fields` with its text, in document order.
/// Child elements of other names are skipped whole.
pub open spec fn struct_fields(ev: Seq<DeEvent>, i: int, name: Seq<u8>, fields: Seq<Seq<u8>>) -> Result<(Seq<(Seq<u8>, Seq<u8>)>, int), DeError>
    decreases ev.len() - i,
{
    if i < 0 || i >= ev.len() {
        Err(DeError::UnexpectedEof)
    } else {
        match ev[i] {
            DeEvent::End(n) => if n@ == name {
                Ok((Seq::empty(), i + 1))
            } else {
                Err(DeError::EndEventMismatch)
            },
            DeEvent::Start(f) => {
                let field: Result<(Option<Seq<u8>>, int), DeError> = if fields.contains(f@) {
                    match leaf_text(ev, i + 1, f@) {
                        Ok((t, k)) => Ok((Some(t), k)),
                        Err(e) => Err(e),
                    }
                } else {
                    match skip_outcome(ev, i + 1, f@) {
                        (Ok(_), k) => Ok((None, k)),
                        (Err(e), _) => Err(e),
                    }
                };
                match field {
                    Ok((t, k)) => if k <= i || k > ev.len() {
                        Err(DeError::UnexpectedEof)
                    } else {
                        match struct_fields(ev, k, name, fields) {
                            Ok((rest, e)) => Ok(
                                (
                                    match t {
                                        Some(t) => seq![(f@, t)] + rest,
                                        None => rest,
                                    },
                                    e,
                                ),
                            ),
                            Err(e) => Err(e),
                        }
                    },
                    Err(e) => Err(e),
                }
            },
            _ => Err(DeError::UnexpectedEvent),
        }
    }
}

/// Where the element region that starts at `i` ends: `depth` is the number of
/// elements opened since the region began and not yet closed. The result is
/// the index of the closing event that brings the depth below zero, if any.
pub open spec fn matching_end(ev: Seq<DeEvent>, i: int, depth: nat) -> Option<int>
    decreases ev.len() - i,
{
    if i < 0 || i >= ev.len() {
        None
    } else {
        match ev[i] {
            DeEvent::Start(_) => matching_end(ev, i + 1, depth + 1),
            DeEvent::End(_) => if depth == 0 {
                Some(i)
            } else {
                matching_end(ev, i + 1, (depth - 1) as nat)
            },
            _ => matching_end(ev, i + 1, depth),
        }
    }
}

/// What skipping the element region that starts at `from` gives: the result,
/// and the position after it. The closing event must be named `name`.
pub open spec fn skip_outcome(ev: Seq<DeEvent>, from: int, name: Seq<u8>) -> (Result<(), DeError>, int) {
    match matching_end(ev, from, 0) {
        None => (Err(DeError::UnexpectedEof), ev.len() as int),
        Some(j) => (
            if ev[j].bytes() == name {
                Ok(())
            } else {
                Err(DeError::EndEventMismatch)
            },
            j + 1,
        ),
    }
}

/// A found closing event lies at or after the search start, inside the input.
pub proof fn lemma_matching_end_bounds(ev: Seq<DeEvent>, i: int, depth: nat)
    requires
        0 <= i,
    ensures
        matching_end(ev, i, depth) matches Some(j) ==> i <= j < ev.len() && ev[j] is End,
    decreases ev.len() - i,
{
    if i < ev.len() {
        match ev[i] {
            DeEvent::Start(_) => lemma_matching_end_bounds(ev, i + 1, depth + 1),
            DeEvent::End(_) => if depth != 0 {
                lemma_matching_end_bounds(ev, i + 1, (depth - 1) as nat);
            },
            _ => lemma_matching_end_bounds(ev, i + 1, depth),
        }
    }
}

/// A cursor over a sequence of parse events.
pub struct Deserializer {
    events: Vec<DeEvent>,
    pos: usize,
}

impl Deserializer {
    #[verifier::type_invariant]
    spec fn inv(&self) -> bool {
        self.pos <= self.events.len()
    }

    /// The whole event sequence.
    pub closed spec fn events(&self) -> Seq<DeEvent> {
        self.events@
    }

    /// The index of the next event to be consumed.
    pub closed spec fn pos(&self) -> int {
        self.pos as int
    }

    /// The next event, if the input is not exhausted.
    pub open spec fn peek_spec(&self) -> Option<DeEvent> {
        if 0 <= self.pos() < self.events().len() {
            Some(self.events()[self.pos()])
        } else {
            None
        }
    }

    /// A cursor at the first of `events`.
    pub fn new(events: Vec<DeEvent>) -> (r: Self)
        ensures
            r.events() == events@,
            r.pos() == 0,
    {
        Deserializer { events, pos: 0 }
    }

    /// The number of events consumed so far.
    pub fn position(&self) -> (r: usize)
        ensures
            r == self.pos(),
    {
        self.pos
    }

    /// The next event, without consuming it.
    pub fn peek(&self) -> (r: Option<&DeEvent>)
        ensures
            r matches Some(e) ==> self.peek_spec() == Some(*e),
            r is None <==> self.peek_spec() is None,
    {
        proof {
            use_type_invariant(self);
        }
        if self.pos < self.events.len() {
            Some(&self.events[self.pos])
        } else {
            None
        }
    }

    /// Consumes the next event and returns a copy of it.
    pub fn next(&mut self) -> (r: Option<DeEvent>)
        ensures
            final(self).events() == old(self).events(),
            match old(self).peek_spec() {
                Some(e) => r matches Some(x) && x.bytes() == e.bytes() && x.same_kind(&e)
                    && final(self).pos() == old(self).pos() + 1,
                None => r is None && final(self).pos() == old(self).pos(),
            },
    {
        proof {
            use_type_invariant(&*self);
        }
        if self.pos < self.events.len() {
            let e = self.events[self.pos].duplicate();
            self.pos = self.pos + 1;
            Some(e)
        } else {
            None
        }
    }

    /// Consumes everything up to and including the closing event of the
    /// element whose opening event was just consumed, which must be named
    /// `name`.
    pub fn read_to_end(&mut self, name: &[u8]) -> (r: Result<(), DeError>)
        ensures
            final(self).events() == old(self).events(),
            (r, final(self).pos()) == skip_outcome(old(self).events(), old(self).pos(), name@),
    {
        proof {
            use_type_invariant(&*self);
        }
        let (r, k) = skip_at(&self.events, self.pos, name);
        self.pos = k;
        r
    }

    /// Reads the text of a leaf element whose opening tag, named `name`, was
    /// just consumed, and its closing tag.
    pub fn read_leaf_text(&mut self, name: &[u8]) -> (r: Result<Vec<u8>, DeError>)
        ensures
            final(self).events() == old(self).events(),
            match leaf_text(old(self).events(), old(self).pos(), name@) {
                Ok((t, k)) => r matches Ok(v) && v@ == t && final(self).pos() == k,
                Err(e) => r matches Err(x) && x == e,
            },
    {
        proof {
            use_type_invariant(&*self);
        }
        let r = leaf_at(&self.events, self.pos, name);
        match r {
            Ok((t, k)) => {
                self.pos = k;
                Ok(t)
            },
            Err(e) => Err(e),
        }
    }

    /// Reads an element of `len` positional items: its opening tag, the
    /// items, and its closing tag.
    pub fn read_tuple(&mut self, len: usize) -> (r: Result<Vec<Vec<u8>>, DeError>)
        ensures
            final(self).events() == old(self).events(),
            match tuple_outcome(old(self).events(), old(self).pos(), len as nat) {
                Ok((items, k)) => r matches Ok(v) && v@.map_values(|x: Vec<u8>| x@) == items
                    && final(self).pos() == k,
                Err(e) => r matches Err(x) && x == e,
            },
    {
        proof {
            use_type_invariant(&*self);
        }
        if self.pos >= self.events.len() {
            return Err(DeError::UnexpectedEof);
        }
        let r = match &self.events[self.pos] {
            DeEvent::Start(n) => tuple_items_at(&self.events, self.pos + 1, n.as_slice(), len),
            _ => Err(DeError::UnexpectedEvent),
        };
        match r {
            Ok((v, k)) => {
                self.pos = k;
                Ok(v)
            },
            Err(e) => Err(e),
        }
    }

    /// Reads an element with named fields: its opening tag, the child
    /// elements, and its closing tag. Each child element named in `fields`
    /// gives its name and its text; the others are skipped.
    pub fn read_struct(&mut self, fields: &[&str]) -> (r: Result<Vec<(Vec<u8>, Vec<u8>)>, DeError>)
        ensures
            final(self).events() == old(self).events(),
            match struct_outcome(old(self).events(), old(self).pos(), names_of(fields@)) {
                Ok((fs, k)) => r matches Ok(v) && pairs_view(v@) == fs && final(self).pos() == k,
                Err(e) => r matches Err(x) && x == e,
            },
    {
        proof {
            use_type_invariant(&*self);
        }
        if self.pos >= self.events.len() {
            return Err(DeError::UnexpectedEof);
        }
        let r = match &self.events[self.pos] {
            DeEvent::Start(n) => struct_fields_at(&self.events, self.pos + 1, n.as_slice(), fields),
            _ => Err(DeError::UnexpectedEvent),
        };
        match r {
            Ok((v, k)) => {
                self.pos = k;
                Ok(v)
            },
            Err(e) => Err(e),
        }
    }
}

/// The items of an element of `n` positional items whose opening tag is at
/// `i`.
pub open spec fn tuple_outcome(ev: Seq<DeEvent>, i: int, n: nat) -> Result<(Seq<Seq<u8>>, int), DeError> {
    if i < 0 || i >= ev.len() {
        Err(DeError::UnexpectedEof)
    } else {
        match ev[i] {
            DeEvent::Start(name) => tuple_items(ev, i + 1, name@, n),
            _ => Err(DeError::UnexpectedEvent),
        }
    }
}

/// The fields of an element whose opening tag is at `i`.
pub open spec fn struct_outcome(ev: Seq<DeEvent>, i: int, fields: Seq<Seq<u8>>) -> Result<(Seq<(Seq<u8>, Seq<u8>)>, int), DeError> {
    if i < 0 || i >= ev.len() {
        Err(DeError::UnexpectedEof)
    } else {
        match ev[i] {
            DeEvent::Start(name) => struct_fields(ev, i + 1, name@, fields),
            _ => Err(DeError::UnexpectedEvent),
        }
    }
}

/// The bytes of each name and text of a list of fields.
pub open spec fn pairs_view(v: Seq<(Vec<u8>, Vec<u8>)>) -> Seq<(Seq<u8>, Seq<u8>)> {
    v.map_values(|p: (Vec<u8>, Vec<u8>)| (p.0@, p.1@))
}

/// A successful result with `acc` put before what it holds.
pub open spec fn prepend<A>(acc: Seq<A>, r: Result<(Seq<A>, int), DeError>) -> Result<(Seq<A>, int), DeError> {
    match r {
        Ok((rest, k)) => Ok((acc + rest, k)),
        Err(e) => Err(e),
    }
}

/// Skips the element region that starts at `from`, whose closing tag must be
/// named `name`.
fn skip_at(events: &Vec<DeEvent>, from: usize, name: &[u8]) -> (r: (Result<(), DeError>, usize))
    requires
        from <= events.len(),
    ensures
        (r.0, r.1 as int) == skip_outcome(events@, from as int, name@),
        r.1 <= events.len(),
{
    match find_matching_end(events, from) {
        None => (Err(DeError::UnexpectedEof), events.len()),
        Some(j) => {
            proof {
                lemma_matching_end_bounds(events@, from as int, 0);
            }
            let matches = match &events[j] {
                DeEvent::End(n) => bytes_eq(n.as_slice(), name),
                _ => false,
            };
            if matches {
                (Ok(()), j + 1)
            } else {
                (Err(DeError::EndEventMismatch), j + 1)
            }
        },
    }
}

/// The text of the leaf element whose opening tag, named `name`, stands just
/// before `i`.
fn leaf_at(events: &Vec<DeEvent>, i: usize, name: &[u8]) -> (r: Result<(Vec<u8>, usize), DeError>)
    ensures
        match leaf_text(events@, i as int, name@) {
            Ok((t, k)) => r matches Ok((v, j)) && v@ == t && j == k,
            Err(e) => r matches Err(x) && x == e,
        },
        r matches Ok((_, j)) ==> j <= events.len(),
{
    if i >= events.len() {
        return Err(DeError::UnexpectedEof);
    }
    match &events[i] {
        DeEvent::End(n) => if bytes_eq(n.as_slice(), name) {
            Ok((Vec::new(), i + 1))
        } else {
            Err(DeError::EndEventMismatch)
        },
        DeEvent::Text(t) => {
            if i + 1 >= events.len() {
                return Err(DeError::UnexpectedEof);
            }
            match &events[i + 1] {
                DeEvent::End(n) => if bytes_eq(n.as_slice(), name) {
                    Ok((t.clone(), i + 2))
                } else {
                    Err(DeError::EndEventMismatch)
                },
                _ => Err(DeError::UnexpectedEvent),
            }
        },
        _ => Err(DeError::UnexpectedEvent),
    }
}

/// The closing tag named `name` at `i`.
fn closing_at(events: &Vec<DeEvent>, i: usize, name: &[u8]) -> (r: Result<usize, DeError>)
    ensures
        match closing(events@, i as int, name@) {
            Ok(k) => r matches Ok(j) && j == k,
            Err(e) => r matches Err(x) && x == e,
        },
        r matches Ok(j) ==> j <= events.len(),
{
    if i >= events.len() {
        return Err(DeError::UnexpectedEof);
    }
    match &events[i] {
        DeEvent::End(n) => if bytes_eq(n.as_slice(), name) {
            Ok(i + 1)
        } else {
            Err(DeError::EndEventMismatch)
        },
        _ => Err(DeError::UnexpectedEvent),
    }
}

/// Whether `name` is one of `names`.
fn contains_name(names: &[&str], name: &[u8]) -> (r: bool)
    ensures
        r == names_of(names@).contains(name@),
{
    let mut i: usize = 0;
    while i < names.len()
        invariant
            i <= names@.len(),
            forall|k: int| 0 <= k < i ==> names_of(names@)[k] != name@,
        decreases names.len() - i,
    {
        if bytes_eq(names[i].as_bytes(), name) {
            assert(names_of(names@)[i as int] == name@);
            return true;
        }
        i = i + 1;
    }
    false
}

/// The `n` positional items from `start` on, and the closing tag named
/// `name`.
fn tuple_items_at(events: &Vec<DeEvent>, start: usize, name: &[u8], n: usize) -> (r: Result<(Vec<Vec<u8>>, usize), DeError>)
    requires
        start <= events.len(),
    ensures
        match tuple_items(events@, start as int, name@, n as nat) {
            Ok((items, k)) => r matches Ok((v, j)) && v@.map_values(|x: Vec<u8>| x@) == items && j
                == k,
            Err(e) => r matches Err(x) && x == e,
        },
        r matches Ok((_, j)) ==> j <= events.len(),
{
    let mut acc: Vec<Vec<u8>> = Vec::new();
    let mut i = start;
    let mut left = n;
    while left > 0
        invariant
            i <= events.len(),
            prepend(acc@.map_values(|x: Vec<u8>| x@), tuple_items(events@, i as int, name@, left as nat))
                == tuple_items(events@, start as int, name@, n as nat),
        decreases left,
    {
        if i >= events.len() {
            return Err(DeError::UnexpectedEof);
        }
        let ghost before = acc@.map_values(|x: Vec<u8>| x@);
        let item = match &events[i] {
            DeEvent::Text(t) => Ok((t.clone(), i + 1)),
            DeEvent::Start(f) => leaf_at(events, i + 1, f.as_slice()),
            _ => Err(DeError::UnexpectedEvent),
        };
        match item {
            Ok((t, k)) => {
                let ghost tv = t@;
                acc.push(t);
                assert(acc@.map_values(|x: Vec<u8>| x@) == before.push(tv));
                proof {
                    match tuple_items(events@, k as int, name@, (left - 1) as nat) {
                        Ok((rest, e)) => {
                            assert(before + (seq![tv] + rest) == before.push(tv) + rest);
                        },
                        Err(_) => {},
                    }
                }
                i = k;
                left = left - 1;
            },
            Err(e) => {
                return Err(e);
            },
        }
    }
    match closing_at(events, i, name) {
        Ok(k) => {
            assert(acc@.map_values(|x: Vec<u8>| x@) + Seq::<Seq<u8>>::empty() == acc@.map_values(
                |x: Vec<u8>| x@,
            ));
            Ok((acc, k))
        },
        Err(e) => Err(e),
    }
}

/// The fields from `start` on, and the closing tag named `name`.
fn struct_fields_at(events: &Vec<DeEvent>, start: usize, name: &[u8], fields: &[&str]) -> (r: Result<(Vec<(Vec<u8>, Vec<u8>)>, usize), DeError>)
    requires
        start <= events.len(),
    ensures
        match struct_fields(events@, start as int, name@, names_of(fields@)) {
            Ok((fs, k)) => r matches Ok((v, j)) && pairs_view(v@) == fs && j == k,
            Err(e) => r matches Err(x) && x == e,
        },
        r matches Ok((_, j)) ==> j <= events.len(),
{
    let ghost names = names_of(fields@);
    let mut acc: Vec<(Vec<u8>, Vec<u8>)> = Vec::new();
    let mut i = start;
    loop
        invariant
            start <= i <= events.len(),
            names == names_of(fields@),
            prepend(pairs_view(acc@), struct_fields(events@, i as int, name@, names))
                == struct_fields(events@, start as int, name@, names),
        decreases events.len() - i,
    {
        if i >= events.len() {
            return Err(DeError::UnexpectedEof);
        }
        let ghost before = pairs_view(acc@);
        match &events[i] {
            DeEvent::End(n) => {
                if bytes_eq(n.as_slice(), name) {
                    assert(before + Seq::<(Seq<u8>, Seq<u8>)>::empty() == before);
                    return Ok((acc, i + 1));
                } else {
                    return Err(DeError::EndEventMismatch);
                }
            },
            DeEvent::Start(f) => {
                if contains_name(fields, f.as_slice()) {
                    match leaf_at(events, i + 1, f.as_slice()) {
                        Ok((t, k)) => {
                            let ghost tv = t@;
                            acc.push((f.clone(), t));
                            assert(pairs_view(acc@) == before.push((f@, tv)));
                            proof {
                                match struct_fields(events@, k as int, name@, names) {
                                    Ok((rest, e)) => {
                                        assert(before + (seq![(f@, tv)] + rest) == before.push(
                                            (f@, tv),
                                        ) + rest);
                                    },
                                    Err(_) => {},
                                }
                            }
                            i = k;
                        },
                        Err(e) => {
                            return Err(e);
                        },
                    }
                } else {
                    let (r, k) = skip_at(events, i + 1, f.as_slice());
                    proof {
                        lemma_matching_end_bounds(events@, i + 1, 0);
                    }
                    match r {
                        Ok(()) => {
                            i = k;
                        },
                        Err(e) => {
                            return Err(e);
                        },
                    }
                }
            },
            _ => {
                return Err(DeError::UnexpectedEvent);
            },
        }
    }
}

/// Whether two byte strings are equal.
pub fn bytes_eq(a: &[u8], b: &[u8]) -> (r: bool)
    ensures
        r == (a@ == b@),
{
    if a.len() != b.len() {
        return false;
    }
    let mut i: usize = 0;
    while i < a.len()
        invariant
            a@.len() == b@.len(),
            i <= a@.len(),
            a@.subrange(0, i as int) == b@.subrange(0, i as int),
        decreases a.len() - i,
    {
        if a[i] != b[i] {
            return false;
        }
        assert(a@.subrange(0, i + 1) == a@.subrange(0, i as int).push(a@[i as int]));
        assert(b@.subrange(0, i + 1) == b@.subrange(0, i as int).push(b@[i as int]));
        i = i + 1;
    }
    assert(a@ == a@.subrange(0, a@.len() as int));
    assert(b@ == b@.subrange(0, b@.len() as int));
    true
}

/// The index of the closing event of the region that starts at `from`.
fn find_matching_end(events: &Vec<DeEvent>, from: usize) -> (r: Option<usize>)
    requires
        from <= events.len(),
    ensures
        r matches Some(j) ==> matching_end(events@, from as int, 0) == Some(j as int),
        r is None ==> matching_end(events@, from as int, 0) is None,
{
    let mut i = from;
    let mut depth: usize = 0;
    while i < events.len()
        invariant
            from <= i <= events.len(),
            depth <= i - from,
            matching_end(events@, from as int, 0) == matching_end(events@, i as int, depth as nat),
        decreases events.len() - i,
    {
        match &events[i] {
            DeEvent::Start(_) => {
                depth = depth + 1;
            },
            DeEvent::End(_) => {
                if depth == 0 {
                    return Some(i);
                }
                depth = depth - 1;
            },
            _ => {},
        }
        i = i + 1;
    }
    None
}

} // verus!
