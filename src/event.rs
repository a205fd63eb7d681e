use vstd::prelude::*;

verus! {

/// One parse event of the markup stream.
#[derive(Debug)]
pub enum DeEvent {
    /// An opening tag, with the element's local name.
    Start(Vec<u8>),
    /// A closing tag, with the element's local name.
    End(Vec<u8>),
    /// A text node, with its raw (still escaped) bytes.
    Text(Vec<u8>),
    /// A comment.
    Comment(Vec<u8>),
}

impl DeEvent {
    /// A copy of the event.
    pub fn duplicate(&self) -> (r: DeEvent)
        ensures
            r.bytes() == self.bytes(),
            r.same_kind(self),
    {
        match self {
            DeEvent::Start(n) => DeEvent::Start(n.clone()),
            DeEvent::End(n) => DeEvent::End(n.clone()),
            DeEvent::Text(t) => DeEvent::Text(t.clone()),
            DeEvent::Comment(t) => DeEvent::Comment(t.clone()),
        }
    }

    /// The bytes that the event carries.
    pub open spec fn bytes(&self) -> Seq<u8> {
        match self {
            DeEvent::Start(n) => n@,
            DeEvent::End(n) => n@,
            DeEvent::Text(t) => t@,
            DeEvent::Comment(t) => t@,
        }
    }

    /// Whether two events are of the same kind.
    pub open spec fn same_kind(&self, o: &DeEvent) -> bool {
        &&& (self is Start <==> o is Start)
        &&& (self is End <==> o is End)
        &&& (self is Text <==> o is Text)
        &&& (self is Comment <==> o is Comment)
    }
}

} // verus!
