use vstd::prelude::*;

verus! {

/// One reason to redraw; `R` is the rectangle type and `I` the node identifier type of
/// the scene.
#[derive(Clone, Debug, PartialEq, Eq)]
pub enum InvalidationRequest<R, I> {
    All,
    Rect(R),
    Node(I),
    Route,
    Animation { id: I, property: &'static str },
}

/// The redraw requests collected since the last drain, in the order they were made.
#[derive(Clone, Debug)]
pub struct InvalidationSet<R, I> {
    requests: Vec<InvalidationRequest<R, I>>,
}

impl<R, I> View for InvalidationSet<R, I> {
    type V = Seq<InvalidationRequest<R, I>>;

    closed spec fn view(&self) -> Seq<InvalidationRequest<R, I>> {
        self.requests@
    }
}

impl<R, I> Default for InvalidationSet<R, I> {
    fn default() -> (r: Self)
        ensures
            r@ == Seq::<InvalidationRequest<R, I>>::empty(),
    {
        InvalidationSet { requests: Vec::new() }
    }
}

impl<R, I> InvalidationSet<R, I> {
    pub fn new() -> (r: Self)
        ensures
            r@ == Seq::<InvalidationRequest<R, I>>::empty(),
    {
        InvalidationSet { requests: Vec::new() }
    }

    pub fn invalidate_all(&mut self)
        ensures
            final(self)@ == old(self)@.push(InvalidationRequest::All),
    {
        self.requests.push(InvalidationRequest::All);
    }

    pub fn invalidate_rect(&mut self, rect: R)
        ensures
            final(self)@ == old(self)@.push(InvalidationRequest::Rect(rect)),
    {
        self.requests.push(InvalidationRequest::Rect(rect));
    }

    pub fn invalidate_node(&mut self, id: I)
        ensures
            final(self)@ == old(self)@.push(InvalidationRequest::Node(id)),
    {
        self.requests.push(InvalidationRequest::Node(id));
    }

    pub fn invalidate_route(&mut self)
        ensures
            final(self)@ == old(self)@.push(InvalidationRequest::Route),
    {
        self.requests.push(InvalidationRequest::Route);
    }

    pub fn invalidate_animation(&mut self, id: I, property: &'static str)
        ensures
            final(self)@ == old(self)@.push(InvalidationRequest::Animation { id, property }),
    {
        self.requests.push(InvalidationRequest::Animation { id, property });
    }

    pub fn is_empty(&self) -> (r: bool)
        ensures
            r == (self@.len() == 0),
    {
        self.requests.len() == 0
    }

    /// Hands out every request in the order it was made and leaves the set empty.
    pub fn drain(&mut self) -> (r: Vec<InvalidationRequest<R, I>>)
        ensures
            r@ == old(self)@,
            final(self)@ == Seq::<InvalidationRequest<R, I>>::empty(),
    {
        let mut taken = Vec::new();
        std::mem::swap(&mut taken, &mut self.requests);
        taken
    }
}

/// The pending requests after each of `requests` is made, in order, on a set that holds
/// `pending`: each `invalidate_*` call pushes the one request it names.
pub open spec fn after_requests<R, I>(
    pending: Seq<InvalidationRequest<R, I>>,
    requests: Seq<InvalidationRequest<R, I>>,
) -> Seq<InvalidationRequest<R, I>>
    decreases requests.len(),
{
    if requests.len() == 0 {
        pending
    } else {
        after_requests(pending, requests.drop_last()).push(requests.last())
    }
}

/// A drain hands back exactly the requests made since the set was created or last
/// drained, in the order they were made, duplicates kept and nothing merged: on a fresh or
/// drained set, the requests made leave exactly those requests pending, and requests made
/// in two runs pend as the first run followed by the second.
pub proof fn law_drain_gives_requests_in_order<R, I>(
    first: Seq<InvalidationRequest<R, I>>,
    second: Seq<InvalidationRequest<R, I>>,
)
    ensures
        after_requests(Seq::<InvalidationRequest<R, I>>::empty(), first) == first,
        after_requests(after_requests(Seq::<InvalidationRequest<R, I>>::empty(), first), second)
            == first + second,
{
    lemma_after_requests_appends(Seq::<InvalidationRequest<R, I>>::empty(), first);
    lemma_after_requests_appends(first, second);
    assert(Seq::<InvalidationRequest<R, I>>::empty() + first =~= first);
}

proof fn lemma_after_requests_appends<R, I>(
    pending: Seq<InvalidationRequest<R, I>>,
    requests: Seq<InvalidationRequest<R, I>>,
)
    ensures
        after_requests(pending, requests) == pending + requests,
    decreases requests.len(),
{
    if requests.len() == 0 {
        assert(pending + requests =~= pending);
    } else {
        lemma_after_requests_appends(pending, requests.drop_last());
        assert(pending + requests =~= (pending + requests.drop_last()).push(requests.last()));
    }
}

} // verus!
